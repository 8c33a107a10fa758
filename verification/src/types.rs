//! Minimal type checking.

use vstd::prelude::*;

use crate::ast::{
    exprs_view, expr_span, lemma_exprs_view, BinOp, Expr, ExprView, FnDef, FnDefView, Item,
    ParamView, Program, ProgramView, Stmt, StmtView, TypeExpr,
};
use crate::errors::{diag, diag_at, Diagnostic, DiagnosticView, Diagnostics, Span};
use crate::text::{nat_decimal, push_str, push_usize_decimal, string_of};

verus! {

#[derive(Clone, Copy, Debug, PartialEq, Eq, Structural)]
pub enum Ty {
    Int,
    String,
    Void,
}

/// The type a type expression denotes.
pub open spec fn ty_of(t: TypeExpr) -> Ty {
    match t {
        TypeExpr::Int => Ty::Int,
        TypeExpr::String => Ty::String,
        TypeExpr::Void => Ty::Void,
    }
}

impl<'a> From<&'a TypeExpr> for Ty {
    fn from(t: &'a TypeExpr) -> (r: Ty) {
        match t {
            TypeExpr::Int => Ty::Int,
            TypeExpr::String => Ty::String,
            TypeExpr::Void => Ty::Void,
        }
    }
}

impl<'a> vstd::std_specs::convert::FromSpecImpl<&'a TypeExpr> for Ty {
    open spec fn obeys_from_spec() -> bool {
        true
    }

    open spec fn from_spec(t: &'a TypeExpr) -> Ty {
        ty_of(*t)
    }
}

/// The declared return type of a function; `Void` when it declares none.
pub open spec fn ret_ty_of(f: FnDefView) -> Ty {
    match f.ret_ty {
        Some(t) => ty_of(t),
        None => Ty::Void,
    }
}

/// The Debug rendering of a type.
pub open spec fn ty_text(t: Ty) -> Seq<char> {
    match t {
        Ty::Int => "Int"@,
        Ty::String => "String"@,
        Ty::Void => "Void"@,
    }
}

/// The Debug rendering of an operator.
pub open spec fn binop_text(op: BinOp) -> Seq<char> {
    match op {
        BinOp::Add => "Add"@,
        BinOp::Sub => "Sub"@,
        BinOp::Mul => "Mul"@,
        BinOp::Div => "Div"@,
    }
}

/// Variable types of a function body: one entry per parameter, in order.
pub open spec fn env_of(params: Seq<ParamView>) -> Seq<(Seq<char>, Ty)> {
    params.map_values(|p: ParamView| (p.name, ty_of(p.ty)))
}

/// The type bound to `name`; a later entry hides an earlier one.
pub open spec fn env_lookup(env: Seq<(Seq<char>, Ty)>, name: Seq<char>) -> Option<Ty>
    decreases env.len(),
{
    if env.len() == 0 {
        None
    } else if env.last().0 == name {
        Some(env.last().1)
    } else {
        env_lookup(env.drop_last(), name)
    }
}

/// The index of the first function named `name`.
pub open spec fn find_fn(funcs: Seq<FnDefView>, name: Seq<char>) -> Option<int>
    decreases funcs.len(),
{
    if funcs.len() == 0 {
        None
    } else if funcs[0].name == name {
        Some(0)
    } else {
        match find_fn(funcs.drop_first(), name) {
            Some(k) => Some(k + 1),
            None => None,
        }
    }
}

/// The type of `e` (or `None` on a type error) and the diagnostics checking it produces.
pub open spec fn check_expr_spec(e: ExprView, env: Seq<(Seq<char>, Ty)>, funcs: Seq<FnDefView>) -> (
    Option<Ty>,
    Seq<DiagnosticView>,
)
    decreases e, 0int,
{
    match e {
        ExprView::IntLit(_, _) => (Some(Ty::Int), Seq::empty()),
        ExprView::StringLit(_, _) => (Some(Ty::String), Seq::empty()),
        ExprView::Ident(name, span) => match env_lookup(env, name) {
            Some(t) => (Some(t), Seq::empty()),
            None => (None, seq![diag_at("unknown variable `"@ + name + "`"@, span)]),
        },
        ExprView::Binary { op, lhs, rhs, span } => {
            let (lt, d1) = check_expr_spec(*lhs, env, funcs);
            match lt {
                None => (None, d1),
                Some(lt) => {
                    let (rt, d2) = check_expr_spec(*rhs, env, funcs);
                    match rt {
                        None => (None, d1 + d2),
                        Some(rt) => if lt != Ty::Int || rt != Ty::Int {
                            (None, d1 + d2 + seq![diag_at(
                                "binary operator "@ + binop_text(op) + " requires Int operands (got "@
                                    + ty_text(lt) + " and "@ + ty_text(rt) + ")"@,
                                span,
                            )])
                        } else {
                            (Some(Ty::Int), d1 + d2)
                        },
                    }
                },
            }
        },
        ExprView::Call { callee, args, span } => check_call_spec(callee, args, span, env, funcs),
    }
}

/// The result type of a call and the diagnostics checking it produces.
pub open spec fn check_call_spec(
    callee: Seq<char>,
    args: Seq<ExprView>,
    span: Span,
    env: Seq<(Seq<char>, Ty)>,
    funcs: Seq<FnDefView>,
) -> (Option<Ty>, Seq<DiagnosticView>)
    decreases args, args.len() + 1,
{
    if callee == "print"@ {
        if args.len() != 1 {
            (None, seq![diag_at("`print` expects 1 argument, got "@ + nat_decimal(args.len()), span)])
        } else {
            let (t, d) = check_expr_spec(args[0], env, funcs);
            match t {
                None => (None, d),
                Some(t) => if t != Ty::String {
                    (None, d + seq![diag_at("`print` expects String, got "@ + ty_text(t), span)])
                } else {
                    (Some(Ty::Void), d)
                },
            }
        }
    } else {
        match find_fn(funcs, callee) {
            None => (None, seq![diag_at("unknown function `"@ + callee + "`"@, span)]),
            Some(k) => {
                let def = funcs[k];
                if args.len() != def.params.len() {
                    (None, seq![diag_at(
                        "function `"@ + callee + "` expects "@ + nat_decimal(def.params.len())
                            + " arguments, got "@ + nat_decimal(args.len()),
                        span,
                    )])
                } else {
                    let (ok, d) = check_args_spec(args, def.params, 0, span, env, funcs);
                    if ok {
                        (Some(ret_ty_of(def)), d)
                    } else {
                        (None, d)
                    }
                }
            },
        }
    }
}

/// Checks the arguments from index `k` on against the parameters, stopping at the first error.
pub open spec fn check_args_spec(
    args: Seq<ExprView>,
    params: Seq<ParamView>,
    k: int,
    span: Span,
    env: Seq<(Seq<char>, Ty)>,
    funcs: Seq<FnDefView>,
) -> (bool, Seq<DiagnosticView>)
    decreases args, args.len() - k,
{
    if k < 0 || k >= args.len() || k >= params.len() {
        (true, Seq::empty())
    } else {
        let (got, d1) = check_expr_spec(args[k], env, funcs);
        match got {
            None => (false, d1),
            Some(got) => {
                let exp = ty_of(params[k].ty);
                if got != exp {
                    (false, d1 + seq![diag_at(
                        "argument type mismatch for `"@ + params[k].name + "`: expected "@ + ty_text(exp)
                            + ", got "@ + ty_text(got),
                        span,
                    )])
                } else {
                    let (ok, d2) = check_args_spec(args, params, k + 1, span, env, funcs);
                    (ok, d1 + d2)
                }
            },
        }
    }
}

/// Whether a statement checks, and the diagnostics checking it produces.
pub open spec fn check_stmt_spec(s: StmtView, fn_ret: Ty, env: Seq<(Seq<char>, Ty)>, funcs: Seq<FnDefView>) -> (
    bool,
    Seq<DiagnosticView>,
) {
    match s {
        StmtView::Return { expr, span } => {
            let (t, d) = check_expr_spec(expr, env, funcs);
            match t {
                None => (false, d),
                Some(t) => if t != fn_ret {
                    (false, d + seq![diag_at(
                        "return type mismatch: expected "@ + ty_text(fn_ret) + ", found "@ + ty_text(t),
                        span,
                    )])
                } else {
                    (true, d)
                },
            }
        },
        StmtView::Expr(e) => {
            let (t, d) = check_expr_spec(e, env, funcs);
            match t {
                None => (false, d),
                Some(t) => if t != Ty::Void {
                    (false, d + seq![diag_at(
                        "expression statement has type "@ + ty_text(t)
                            + "; only Void calls are allowed (MVP)"@,
                        expr_span(e),
                    )])
                } else {
                    (true, d)
                },
            }
        },
    }
}

/// Checks every statement (all of them, even after an error).
pub open spec fn check_stmts_spec(stmts: Seq<StmtView>, fn_ret: Ty, env: Seq<(Seq<char>, Ty)>, funcs: Seq<FnDefView>) -> (
    bool,
    Seq<DiagnosticView>,
)
    decreases stmts.len(),
{
    if stmts.len() == 0 {
        (true, Seq::empty())
    } else {
        let (ok1, d1) = check_stmts_spec(stmts.drop_last(), fn_ret, env, funcs);
        let (ok2, d2) = check_stmt_spec(stmts.last(), fn_ret, env, funcs);
        (ok1 && ok2, d1 + d2)
    }
}

/// Checks the body of one function.
pub open spec fn check_fn_spec(f: FnDefView, funcs: Seq<FnDefView>) -> (bool, Seq<DiagnosticView>) {
    check_stmts_spec(f.body.stmts, ret_ty_of(f), env_of(f.params), funcs)
}

/// Checks every function (all of them, even after an error).
pub open spec fn check_fns_spec(fs: Seq<FnDefView>, funcs: Seq<FnDefView>) -> (bool, Seq<DiagnosticView>)
    decreases fs.len(),
{
    if fs.len() == 0 {
        (true, Seq::empty())
    } else {
        let (ok1, d1) = check_fns_spec(fs.drop_last(), funcs);
        let (ok2, d2) = check_fn_spec(fs.last(), funcs);
        (ok1 && ok2, d1 + d2)
    }
}

/// The first function, from index `j` on, whose name an earlier function already has, with
/// the index of that earlier function.
pub open spec fn first_dup(fs: Seq<FnDefView>, j: int) -> Option<(int, int)>
    decreases fs.len() - j,
{
    if j < 0 || j >= fs.len() {
        None
    } else {
        match find_fn(fs.take(j), fs[j].name) {
            Some(i) => Some((j, i)),
            None => first_dup(fs, j + 1),
        }
    }
}

/// Whether the program type-checks, and the diagnostics checking it produces.
pub open spec fn check_program_spec(p: ProgramView) -> (bool, Seq<DiagnosticView>) {
    let fs = p.items;
    match first_dup(fs, 0) {
        Some((j, i)) => (false, seq![
            diag_at("duplicate function `"@ + fs[j].name + "`"@, fs[j].span),
            diag_at("previous definition here"@, fs[i].span),
        ]),
        None => match find_fn(fs, "main"@) {
            None => (false, seq![diag("program must define `fn main()`"@)]),
            Some(m) => {
                let main_def = fs[m];
                if main_def.params.len() != 0 {
                    (false, seq![diag_at("`main` must take no parameters (MVP)"@, main_def.span)])
                } else if ret_ty_of(main_def) != Ty::Void {
                    (false, seq![diag_at("`main` must return Void (MVP)"@, main_def.span)])
                } else {
                    check_fns_spec(fs, fs)
                }
            },
        },
    }
}

pub proof fn lemma_find_fn(funcs: Seq<FnDefView>, name: Seq<char>)
    ensures
        find_fn(funcs, name) matches Some(k) ==> 0 <= k < funcs.len() && funcs[k].name == name && forall|j: int|
            0 <= j < k ==> funcs[j].name != name,
        find_fn(funcs, name) is None ==> forall|j: int| 0 <= j < funcs.len() ==> funcs[j].name != name,
    decreases funcs.len(),
{
    if funcs.len() > 0 {
        lemma_find_fn(funcs.drop_first(), name);
        if funcs[0].name != name {
            assert forall|j: int| 1 <= j < funcs.len() implies funcs[j].name == funcs.drop_first()[j - 1].name by {}
        }
    }
}

} // verus!

verus! {

/// The views of a list of function references.
pub open spec fn fns_view(fs: Seq<&FnDef>) -> Seq<FnDefView> {
    fs.map_values(|f: &FnDef| f@)
}

/// The view of a variable environment.
pub open spec fn env_view(env: Seq<(String, Ty)>) -> Seq<(Seq<char>, Ty)> {
    env.map_values(|e: (String, Ty)| (e.0@, e.1))
}

/// Type-checks `program`, pushing a diagnostic for each error found. Gives `true` when the
/// program checks.
#[verifier::loop_isolation(false)]
pub fn check_program(program: &Program, diags: &mut Diagnostics) -> (ok: bool)
    ensures
        ok == check_program_spec(program@).0,
        final(diags)@ == old(diags)@ + check_program_spec(program@).1,
{
    let ghost fs = program@.items;
    let funcs = program_fns(program);
    let n = funcs.len();

    // Function names must be unique.
    let mut j: usize = 0;
    while j < n
        invariant
            j <= n == funcs@.len(),
            fns_view(funcs@) == fs,
            fs == program@.items,
            first_dup(fs, 0) == first_dup(fs, j as int),
            diags@ == old(diags)@,
        decreases n - j,
    {
        proof {
            lemma_find_fn(fs.take(j as int), fs[j as int].name);
        }
        match find_fn_index(&funcs, &funcs[j].name, j) {
            Some(prev) => {
                proof {
                    assert(funcs@[j as int]@ == fs[j as int]);
                }
                let mut m = string_of("duplicate function `");
                push_str(&mut m, funcs[j].name.as_str());
                push_str(&mut m, "`");
                diags.push(Diagnostic::spanned(m, funcs[j].span));
                diags.push(Diagnostic::spanned(string_of("previous definition here"), funcs[prev].span));
                proof {
                    assert(funcs@[prev as int]@ == fs[prev as int]);
                    assert(fs.take(j as int)[prev as int] == fs[prev as int]);
                }
                return false;
            },
            None => {},
        }
        j = j + 1;
    }
    let main_name = string_of("main");
    proof {
        lemma_find_fn(fs, "main"@);
        assert(fs.take(n as int) =~= fs);
    }
    let main_idx = match find_fn_index(&funcs, &main_name, n) {
        Some(m) => m,
        None => {
            proof {
                assert(fs.take(n as int) =~= fs);
            }
            diags.error(string_of("program must define `fn main()`"));
            return false;
        },
    };
    proof {
        assert(fs.take(n as int) =~= fs);
    }
    let main_def = funcs[main_idx];
    proof {
        assert(main_def@ == fs[main_idx as int]);
    }
    if main_def.params.len() != 0 {
        diags.push(Diagnostic::spanned(string_of("`main` must take no parameters (MVP)"), main_def.span));
        return false;
    }
    let main_ret = match &main_def.ret_ty {
        Some(t) => Ty::from(t),
        None => Ty::Void,
    };
    if main_ret != Ty::Void {
        diags.push(Diagnostic::spanned(string_of("`main` must return Void (MVP)"), main_def.span));
        return false;
    }

    let mut ok = true;
    let mut i: usize = 0;
    let ghost pre = diags@;
    proof {
        assert(fs.take(0) =~= Seq::<FnDefView>::empty());
        assert(pre + Seq::<DiagnosticView>::empty() =~= pre);
    }
    while i < n
        invariant
            i <= n == funcs@.len(),
            fns_view(funcs@) == fs,
            ok == check_fns_spec(fs.take(i as int), fs).0,
            diags@ == pre + check_fns_spec(fs.take(i as int), fs).1,
        decreases n - i,
    {
        let f = funcs[i];
        proof {
            assert(f@ == fs[i as int]);
        }
        let ghost before = diags@;
        if !check_fn(f, &funcs, diags) {
            ok = false;
        }
        proof {
            assert(fs.take(i + 1).drop_last() =~= fs.take(i as int));
            assert(diags@ =~= pre + check_fns_spec(fs.take(i + 1), fs).1);
        }
        i = i + 1;
    }
    proof {
        assert(fs.take(n as int) =~= fs);
    }
    ok
}

/// References to the functions of `program`, in order.
pub(crate) fn program_fns(program: &Program) -> (funcs: Vec<&FnDef>)
    ensures
        fns_view(funcs@) == program@.items,
{
    let ghost fs = program@.items;
    let mut funcs: Vec<&FnDef> = Vec::new();
    let mut k: usize = 0;
    while k < program.items.len()
        invariant
            k <= program.items@.len(),
            fs == program@.items,
            funcs@.len() == k,
            fs.len() == program.items@.len(),
            fns_view(funcs@) == fs.take(k as int),
        decreases program.items@.len() - k,
    {
        match &program.items[k] {
            Item::Fn(f) => {
                assert(program@.items[k as int] == f@);
                funcs.push(f);
            },
        }
        assert(fns_view(funcs@) =~= fs.take(k + 1));
        k = k + 1;
    }
    assert(fs.take(k as int) =~= fs);
    funcs
}

/// The index of the first function among the first `upto` whose name is `name`.
#[verifier::loop_isolation(false)]
fn find_fn_index(funcs: &Vec<&FnDef>, name: &String, upto: usize) -> (r: Option<usize>)
    requires
        upto <= funcs@.len(),
    ensures
        match find_fn(fns_view(funcs@).take(upto as int), name@) {
            Some(k) => r == Some(k as usize),
            None => r is None,
        },
{
    let ghost fs = fns_view(funcs@).take(upto as int);
    proof {
        lemma_find_fn(fs, name@);
    }
    let mut i: usize = 0;
    while i < upto
        invariant
            i <= upto <= funcs@.len(),
            fs == fns_view(funcs@).take(upto as int),
            forall|j: int| 0 <= j < i ==> fs[j].name != name@,
        decreases upto - i,
    {
        proof {
            assert(fs[i as int] == funcs@[i as int]@);
        }
        if funcs[i].name == *name {
            return Some(i);
        }
        i = i + 1;
    }
    None
}

/// The variable environment of a function body: its parameters.
#[verifier::loop_isolation(false)]
fn param_env(f: &FnDef) -> (env: Vec<(String, Ty)>)
    ensures
        env_view(env@) == env_of(f@.params),
{
    let mut env: Vec<(String, Ty)> = Vec::new();
    let mut i: usize = 0;
    while i < f.params.len()
        invariant
            i <= f.params@.len(),
            env_view(env@) == env_of(f@.params).take(i as int),
        decreases f.params@.len() - i,
    {
        let p = &f.params[i];
        let t = Ty::from(&p.ty);
        assert(t == ty_of(p.ty));
        env.push((p.name.clone(), t));
        assert(env_view(env@) =~= env_of(f@.params).take(i + 1));
        i = i + 1;
    }
    assert(env_of(f@.params).take(i as int) =~= env_of(f@.params));
    env
}

/// Checks every statement of `f`'s body.
#[verifier::loop_isolation(false)]
fn check_fn(f: &FnDef, all: &Vec<&FnDef>, diags: &mut Diagnostics) -> (ok: bool)
    ensures
        ok == check_fn_spec(f@, fns_view(all@)).0,
        final(diags)@ == old(diags)@ + check_fn_spec(f@, fns_view(all@)).1,
{
    let ret = match &f.ret_ty {
        Some(t) => Ty::from(t),
        None => Ty::Void,
    };
    let env = param_env(f);
    let ghost stmts = f@.body.stmts;
    let ghost funcs = fns_view(all@);
    let mut ok = true;
    let mut i: usize = 0;
    let ghost pre = diags@;
    proof {
        assert(stmts.take(0) =~= Seq::<StmtView>::empty());
        assert(pre + Seq::<DiagnosticView>::empty() =~= pre);
    }
    while i < f.body.stmts.len()
        invariant
            i <= f.body.stmts@.len(),
            stmts == f@.body.stmts,
            funcs == fns_view(all@),
            ret == ret_ty_of(f@),
            env_view(env@) == env_of(f@.params),
            ok == check_stmts_spec(stmts.take(i as int), ret, env_of(f@.params), funcs).0,
            diags@ == pre + check_stmts_spec(stmts.take(i as int), ret, env_of(f@.params), funcs).1,
        decreases f.body.stmts@.len() - i,
    {
        if !check_stmt(&f.body.stmts[i], ret, &env, all, diags) {
            ok = false;
        }
        proof {
            assert(stmts.take(i + 1).drop_last() =~= stmts.take(i as int));
            assert(stmts[i as int] == f.body.stmts@[i as int]@);
            assert(diags@ =~= pre + check_stmts_spec(stmts.take(i + 1), ret, env_of(f@.params), funcs).1);
        }
        i = i + 1;
    }
    proof {
        assert(stmts.take(i as int) =~= stmts);
    }
    ok
}

fn check_stmt(stmt: &Stmt, fn_ret: Ty, env: &Vec<(String, Ty)>, funcs: &Vec<&FnDef>, diags: &mut Diagnostics) -> (ok: bool)
    ensures
        ok == check_stmt_spec(stmt@, fn_ret, env_view(env@), fns_view(funcs@)).0,
        final(diags)@ == old(diags)@ + check_stmt_spec(stmt@, fn_ret, env_view(env@), fns_view(funcs@)).1,
{
    match stmt {
        Stmt::Return { expr, span } => {
            let t = match check_expr(expr, env, funcs, diags) {
                Some(t) => t,
                None => {
                    return false;
                },
            };
            if t != fn_ret {
                let mut m = string_of("return type mismatch: expected ");
                push_ty(&mut m, fn_ret);
                push_str(&mut m, ", found ");
                push_ty(&mut m, t);
                let ghost before = diags@;
                diags.push(Diagnostic::spanned(m, *span));
                return false;
            }
            true
        },
        Stmt::Expr(e) => {
            let t = match check_expr(e, env, funcs, diags) {
                Some(t) => t,
                None => {
                    return false;
                },
            };
            if t != Ty::Void {
                let mut m = string_of("expression statement has type ");
                push_ty(&mut m, t);
                push_str(&mut m, "; only Void calls are allowed (MVP)");
                diags.push(Diagnostic::spanned(m, e.span()));
                return false;
            }
            true
        },
    }
}

/// Appends the Debug rendering of `t`.
fn push_ty(s: &mut String, t: Ty)
    ensures
        final(s)@ == old(s)@ + ty_text(t),
{
    match t {
        Ty::Int => push_str(s, "Int"),
        Ty::String => push_str(s, "String"),
        Ty::Void => push_str(s, "Void"),
    }
}

/// The type bound to `name` in `env`, the latest binding first.
#[verifier::loop_isolation(false)]
fn env_get(env: &Vec<(String, Ty)>, name: &String) -> (r: Option<Ty>)
    ensures
        r == env_lookup(env_view(env@), name@),
{
    let ghost ev = env_view(env@);
    let mut i: usize = env.len();
    proof {
        assert(ev.take(i as int) =~= ev);
    }
    while i > 0
        invariant
            i <= env@.len(),
            ev == env_view(env@),
            env_lookup(ev, name@) == env_lookup(ev.take(i as int), name@),
        decreases i,
    {
        proof {
            assert(ev.take(i as int).drop_last() =~= ev.take(i - 1));
            assert(ev.take(i as int).last() == ev[i - 1]);
        }
        if env[i - 1].0 == *name {
            return Some(env[i - 1].1);
        }
        i = i - 1;
    }
    None
}

fn check_expr(expr: &Expr, env: &Vec<(String, Ty)>, funcs: &Vec<&FnDef>, diags: &mut Diagnostics) -> (r: Option<Ty>)
    ensures
        r == check_expr_spec(expr@, env_view(env@), fns_view(funcs@)).0,
        final(diags)@ == old(diags)@ + check_expr_spec(expr@, env_view(env@), fns_view(funcs@)).1,
    decreases expr, 0int,
{
    match expr {
        Expr::IntLit(_, _) => {
            assert(old(diags)@ + Seq::<DiagnosticView>::empty() =~= old(diags)@);
            Some(Ty::Int)
        },
        Expr::StringLit(_, _) => {
            assert(old(diags)@ + Seq::<DiagnosticView>::empty() =~= old(diags)@);
            Some(Ty::String)
        },
        Expr::Ident(name, span) => match env_get(env, name) {
            Some(t) => {
                assert(old(diags)@ + Seq::<DiagnosticView>::empty() =~= old(diags)@);
                Some(t)
            },
            None => {
                let mut m = string_of("unknown variable `");
                push_str(&mut m, name.as_str());
                push_str(&mut m, "`");
                diags.push(Diagnostic::spanned(m, *span));
                assert(diags@ =~= old(diags)@ + check_expr_spec(expr@, env_view(env@), fns_view(funcs@)).1);
                None
            },
        },
        Expr::Binary { op, lhs, rhs, span } => {
            let lt = match check_expr(lhs, env, funcs, diags) {
                Some(t) => t,
                None => {
                    return None;
                },
            };
            let ghost mid = diags@;
            let rt = match check_expr(rhs, env, funcs, diags) {
                Some(t) => t,
                None => {
                    assert(diags@ =~= old(diags)@ + check_expr_spec(expr@, env_view(env@), fns_view(funcs@)).1);
                    return None;
                },
            };
            if lt != Ty::Int || rt != Ty::Int {
                let mut m = string_of("binary operator ");
                push_binop(&mut m, *op);
                push_str(&mut m, " requires Int operands (got ");
                push_ty(&mut m, lt);
                push_str(&mut m, " and ");
                push_ty(&mut m, rt);
                push_str(&mut m, ")");
                diags.push(Diagnostic::spanned(m, *span));
                assert(diags@ =~= old(diags)@ + check_expr_spec(expr@, env_view(env@), fns_view(funcs@)).1);
                return None;
            }
            assert(diags@ =~= old(diags)@ + check_expr_spec(expr@, env_view(env@), fns_view(funcs@)).1);
            Some(Ty::Int)
        },
        Expr::Call { callee, args, span } => {
            check_call(callee, args, *span, env, funcs, diags)
        },
    }
}

/// Appends the Debug rendering of `op`.
fn push_binop(s: &mut String, op: BinOp)
    ensures
        final(s)@ == old(s)@ + binop_text(op),
{
    match op {
        BinOp::Add => push_str(s, "Add"),
        BinOp::Sub => push_str(s, "Sub"),
        BinOp::Mul => push_str(s, "Mul"),
        BinOp::Div => push_str(s, "Div"),
    }
}

#[verifier::loop_isolation(false)]
fn check_call(
    callee: &String,
    args: &Vec<Expr>,
    span: Span,
    env: &Vec<(String, Ty)>,
    funcs: &Vec<&FnDef>,
    diags: &mut Diagnostics,
) -> (r: Option<Ty>)
    ensures
        r == check_call_spec(callee@, exprs_view(args@), span, env_view(env@), fns_view(funcs@)).0,
        final(diags)@ == old(diags)@ + check_call_spec(callee@, exprs_view(args@), span, env_view(env@), fns_view(funcs@)).1,
    decreases *args, args@.len() + 1,
{
    let ghost av = exprs_view(args@);
    let ghost ev = env_view(env@);
    let ghost fv = fns_view(funcs@);
    proof {
        lemma_exprs_view(args@);
    }
    let print = string_of("print");
    if *callee == print {
        if args.len() != 1 {
            let mut m = string_of("`print` expects 1 argument, got ");
            push_usize_decimal(&mut m, args.len());
            diags.push(Diagnostic::spanned(m, span));
            assert(diags@ =~= old(diags)@ + check_call_spec(callee@, av, span, ev, fv).1);
            return None;
        }
        let t = match check_expr(&args[0], env, funcs, diags) {
            Some(t) => t,
            None => {
                return None;
            },
        };
        if t != Ty::String {
            let mut m = string_of("`print` expects String, got ");
            push_ty(&mut m, t);
            diags.push(Diagnostic::spanned(m, span));
            assert(diags@ =~= old(diags)@ + check_call_spec(callee@, av, span, ev, fv).1);
            return None;
        }
        return Some(Ty::Void);
    }
    proof {
        lemma_find_fn(fv, callee@);
        assert(fv.take(funcs@.len() as int) =~= fv);
    }
    let def = match find_fn_index(funcs, callee, funcs.len()) {
        Some(k) => {
            proof {
                assert(fv.take(funcs@.len() as int) =~= fv);
            }
            funcs[k]
        },
        None => {
            proof {
                assert(fv.take(funcs@.len() as int) =~= fv);
            }
            let mut m = string_of("unknown function `");
            push_str(&mut m, callee.as_str());
            push_str(&mut m, "`");
            diags.push(Diagnostic::spanned(m, span));
            assert(diags@ =~= old(diags)@ + check_call_spec(callee@, av, span, ev, fv).1);
            return None;
        },
    };
    let ghost dv = def@;
    proof {
        assert(fv.take(funcs@.len() as int) =~= fv);
        assert(dv == fv[find_fn(fv, callee@)->0]);
    }
    if args.len() != def.params.len() {
        let mut m = string_of("function `");
        push_str(&mut m, callee.as_str());
        push_str(&mut m, "` expects ");
        push_usize_decimal(&mut m, def.params.len());
        push_str(&mut m, " arguments, got ");
        push_usize_decimal(&mut m, args.len());
        diags.push(Diagnostic::spanned(m, span));
        assert(diags@ =~= old(diags)@ + check_call_spec(callee@, av, span, ev, fv).1);
        return None;
    }
    let ghost pre = diags@;
    let mut k: usize = 0;
    proof {
        assert(pre + Seq::<DiagnosticView>::empty() =~= pre);
    }
    while k < args.len()
        invariant
            k <= args@.len() == def.params@.len(),
            av == exprs_view(args@),
            ev == env_view(env@),
            fv == fns_view(funcs@),
            dv == def@,
            av.len() == args@.len(),
            forall|i: int| 0 <= i < args@.len() ==> #[trigger] av[i] == args@[i]@,
            check_args_spec(av, dv.params, 0, span, ev, fv).0 == check_args_spec(av, dv.params, k as int, span, ev, fv).0,
            pre + check_args_spec(av, dv.params, 0, span, ev, fv).1 == diags@ + check_args_spec(av, dv.params, k as int, span, ev, fv).1,
        decreases args@.len() - k,
    {
        let ghost before = diags@;
        let got = match check_expr(&args[k], env, funcs, diags) {
            Some(t) => t,
            None => {
                return None;
            },
        };
        let p = &def.params[k];
        let exp = Ty::from(&p.ty);
        if got != exp {
            let mut m = string_of("argument type mismatch for `");
            push_str(&mut m, p.name.as_str());
            push_str(&mut m, "`: expected ");
            push_ty(&mut m, exp);
            push_str(&mut m, ", got ");
            push_ty(&mut m, got);
            diags.push(Diagnostic::spanned(m, span));
            assert(diags@ =~= before + check_args_spec(av, dv.params, k as int, span, ev, fv).1);
            return None;
        }
        proof {
            let (ok2, d2) = check_args_spec(av, dv.params, k + 1, span, ev, fv);
            assert(before + check_args_spec(av, dv.params, k as int, span, ev, fv).1 =~= diags@ + d2);
        }
        k = k + 1;
    }
    proof {
        assert(diags@ + Seq::<DiagnosticView>::empty() =~= diags@);
    }
    match &def.ret_ty {
        Some(t) => Some(Ty::from(t)),
        None => Some(Ty::Void),
    }
}

} // verus!

verus! {

/// Checking an expression gives a type exactly when it reports nothing.
pub proof fn lemma_check_expr_reports(e: ExprView, env: Seq<(Seq<char>, Ty)>, funcs: Seq<FnDefView>)
    ensures
        check_expr_spec(e, env, funcs).0 is Some <==> check_expr_spec(e, env, funcs).1.len() == 0,
    decreases e, 0int,
{
    match e {
        ExprView::Binary { op, lhs, rhs, span } => {
            lemma_check_expr_reports(*lhs, env, funcs);
            lemma_check_expr_reports(*rhs, env, funcs);
        },
        ExprView::Call { callee, args, span } => {
            lemma_check_call_reports(callee, args, span, env, funcs);
        },
        _ => {},
    }
}

/// Checking a call gives a type exactly when it reports nothing.
pub proof fn lemma_check_call_reports(
    callee: Seq<char>,
    args: Seq<ExprView>,
    span: Span,
    env: Seq<(Seq<char>, Ty)>,
    funcs: Seq<FnDefView>,
)
    ensures
        check_call_spec(callee, args, span, env, funcs).0 is Some <==> check_call_spec(callee, args, span, env, funcs).1.len() == 0,
    decreases args, args.len() + 1,
{
    if callee == "print"@ {
        if args.len() == 1 {
            lemma_check_expr_reports(args[0], env, funcs);
        }
    } else {
        match find_fn(funcs, callee) {
            Some(k) => {
                lemma_check_args_reports(args, funcs[k].params, 0, span, env, funcs);
            },
            None => {},
        }
    }
}

/// Checking arguments succeeds exactly when it reports nothing.
pub proof fn lemma_check_args_reports(
    args: Seq<ExprView>,
    params: Seq<ParamView>,
    k: int,
    span: Span,
    env: Seq<(Seq<char>, Ty)>,
    funcs: Seq<FnDefView>,
)
    ensures
        check_args_spec(args, params, k, span, env, funcs).0 <==> check_args_spec(args, params, k, span, env, funcs).1.len() == 0,
    decreases args, args.len() - k,
{
    if !(k < 0 || k >= args.len() || k >= params.len()) {
        lemma_check_expr_reports(args[k], env, funcs);
        lemma_check_args_reports(args, params, k + 1, span, env, funcs);
    }
}

proof fn lemma_check_stmts_reports(stmts: Seq<StmtView>, fn_ret: Ty, env: Seq<(Seq<char>, Ty)>, funcs: Seq<FnDefView>)
    ensures
        check_stmts_spec(stmts, fn_ret, env, funcs).0 <==> check_stmts_spec(stmts, fn_ret, env, funcs).1.len() == 0,
    decreases stmts.len(),
{
    if stmts.len() > 0 {
        lemma_check_stmts_reports(stmts.drop_last(), fn_ret, env, funcs);
        match stmts.last() {
            StmtView::Return { expr, span } => lemma_check_expr_reports(expr, env, funcs),
            StmtView::Expr(e) => lemma_check_expr_reports(e, env, funcs),
        }
    }
}

proof fn lemma_check_fns_reports(fs: Seq<FnDefView>, funcs: Seq<FnDefView>)
    ensures
        check_fns_spec(fs, funcs).0 <==> check_fns_spec(fs, funcs).1.len() == 0,
    decreases fs.len(),
{
    if fs.len() > 0 {
        lemma_check_fns_reports(fs.drop_last(), funcs);
        let f = fs.last();
        lemma_check_stmts_reports(f.body.stmts, ret_ty_of(f), env_of(f.params), funcs);
    }
}

/// Arithmetic is on integers only: a binary expression has a type exactly when both of its
/// operands have type `Int`, and that type is `Int`; when both operands have a type but one
/// is not `Int`, the checker reports it.
pub proof fn lemma_binary_operands_int(
    op: BinOp,
    lhs: ExprView,
    rhs: ExprView,
    span: Span,
    env: Seq<(Seq<char>, Ty)>,
    funcs: Seq<FnDefView>,
)
    ensures
        ({
            let r = check_expr_spec(ExprView::Binary { op, lhs: Box::new(lhs), rhs: Box::new(rhs), span }, env, funcs);
            let lt = check_expr_spec(lhs, env, funcs).0;
            let rt = check_expr_spec(rhs, env, funcs).0;
            &&& r.0 is Some <==> (lt == Some(Ty::Int) && rt == Some(Ty::Int))
            &&& r.0 is Some ==> r.0 == Some(Ty::Int)
            &&& (lt is Some && rt is Some && r.0 is None) ==> r.1.len() > 0
        }),
{
}

/// `print` takes exactly one `String` argument and has type `Void`.
pub proof fn lemma_print_call(args: Seq<ExprView>, span: Span, env: Seq<(Seq<char>, Ty)>, funcs: Seq<FnDefView>)
    ensures
        ({
            let r = check_call_spec("print"@, args, span, env, funcs).0;
            &&& r is Some <==> (args.len() == 1 && check_expr_spec(args[0], env, funcs).0 == Some(Ty::String))
            &&& r is Some ==> r == Some(Ty::Void)
        }),
{
}

/// A variable has the type of the last parameter with its name, and no type (an error) when
/// no parameter has that name.
pub proof fn lemma_variable_type(params: Seq<ParamView>, name: Seq<char>)
    ensures
        env_lookup(env_of(params), name) matches Some(t) ==> exists|k: int|
            0 <= k < params.len() && #[trigger] params[k].name == name && ty_of(params[k].ty) == t && forall|j: int|
                k < j < params.len() ==> params[j].name != name,
        env_lookup(env_of(params), name) is None ==> forall|k: int| 0 <= k < params.len() ==> #[trigger] params[k].name != name,
    decreases params.len(),
{
    if params.len() > 0 {
        let ps = params.drop_last();
        assert(env_of(params).drop_last() =~= env_of(ps));
        lemma_variable_type(ps, name);
        if params.last().name != name {
            if let Some(t) = env_lookup(env_of(ps), name) {
                let k = choose|k: int|
                    0 <= k < ps.len() && #[trigger] ps[k].name == name && ty_of(ps[k].ty) == t && forall|j: int|
                        k < j < ps.len() ==> ps[j].name != name;
                assert(params[k] == ps[k]);
                assert forall|j: int| k < j < params.len() implies params[j].name != name by {
                    if j < ps.len() {
                        assert(params[j] == ps[j]);
                    }
                }
            } else {
                assert forall|k: int| 0 <= k < params.len() implies #[trigger] params[k].name != name by {
                    if k < ps.len() {
                        assert(params[k] == ps[k]);
                    }
                }
            }
        } else {
            assert(params[params.len() - 1].name == name);
        }
    }
}

/// Arguments are checked position by position: with as many arguments as parameters, the
/// arguments from `k` on check exactly when each has the type of the parameter at its own
/// position.
pub proof fn lemma_args_match_params(
    args: Seq<ExprView>,
    params: Seq<ParamView>,
    k: int,
    span: Span,
    env: Seq<(Seq<char>, Ty)>,
    funcs: Seq<FnDefView>,
)
    requires
        0 <= k <= args.len(),
        args.len() == params.len(),
    ensures
        check_args_spec(args, params, k, span, env, funcs).0 <==> forall|j: int|
            k <= j < args.len() ==> #[trigger] check_expr_spec(args[j], env, funcs).0 == Some(ty_of(params[j].ty)),
    decreases args.len() - k,
{
    if k < args.len() {
        lemma_args_match_params(args, params, k + 1, span, env, funcs);
        if check_args_spec(args, params, k, span, env, funcs).0 {
            assert forall|j: int| k <= j < args.len() implies #[trigger] check_expr_spec(args[j], env, funcs).0 == Some(
                ty_of(params[j].ty),
            ) by {
                if j > k {
                    assert(k + 1 <= j);
                }
            }
        } else {
            if check_expr_spec(args[k], env, funcs).0 == Some(ty_of(params[k].ty)) {
                assert(!check_args_spec(args, params, k + 1, span, env, funcs).0);
            }
        }
    }
}

/// A call of a declared function has a type exactly when it passes one argument of the right
/// type for each parameter of the first function with that name; the type is that function's
/// return type.
pub proof fn lemma_call_of_function(
    callee: Seq<char>,
    args: Seq<ExprView>,
    span: Span,
    env: Seq<(Seq<char>, Ty)>,
    funcs: Seq<FnDefView>,
)
    requires
        callee != "print"@,
        find_fn(funcs, callee) is Some,
    ensures
        ({
            let def = funcs[find_fn(funcs, callee)->0];
            let r = check_call_spec(callee, args, span, env, funcs).0;
            &&& r is Some <==> (args.len() == def.params.len() && forall|j: int|
                0 <= j < args.len() ==> #[trigger] check_expr_spec(args[j], env, funcs).0 == Some(ty_of(def.params[j].ty)))
            &&& r is Some ==> r == Some(ret_ty_of(def))
        }),
{
    let def = funcs[find_fn(funcs, callee)->0];
    if args.len() == def.params.len() {
        lemma_args_match_params(args, def.params, 0, span, env, funcs);
    }
}

/// A `return` checks exactly when its expression has the function's return type, and an
/// expression statement exactly when its expression has type `Void`.
pub proof fn lemma_stmt_checks(s: StmtView, fn_ret: Ty, env: Seq<(Seq<char>, Ty)>, funcs: Seq<FnDefView>)
    ensures
        check_stmt_spec(s, fn_ret, env, funcs).0 <==> match s {
            StmtView::Return { expr, .. } => check_expr_spec(expr, env, funcs).0 == Some(fn_ret),
            StmtView::Expr(e) => check_expr_spec(e, env, funcs).0 == Some(Ty::Void),
        },
{
}

proof fn lemma_first_dup_none(fs: Seq<FnDefView>, j: int)
    requires
        0 <= j,
    ensures
        first_dup(fs, j) is None <==> forall|a: int, b: int|
            0 <= a < b < fs.len() && j <= b ==> #[trigger] fs[a].name != #[trigger] fs[b].name,
    decreases fs.len() - j,
{
    if j < fs.len() {
        lemma_first_dup_none(fs, j + 1);
        lemma_find_fn(fs.take(j), fs[j].name);
        if let Some(i) = find_fn(fs.take(j), fs[j].name) {
            assert(fs[i].name == fs[j].name);
        } else if first_dup(fs, j + 1) is None {
            assert forall|a: int, b: int|
                0 <= a < b < fs.len() && j <= b implies #[trigger] fs[a].name != #[trigger] fs[b].name by {
                if b == j {
                    assert(fs.take(j)[a] == fs[a]);
                }
            }
        }
    }
}

proof fn lemma_all_fns_check(fs: Seq<FnDefView>, funcs: Seq<FnDefView>)
    ensures
        check_fns_spec(fs, funcs).0 <==> forall|k: int| 0 <= k < fs.len() ==> #[trigger] check_fn_spec(fs[k], funcs).0,
    decreases fs.len(),
{
    if fs.len() > 0 {
        lemma_all_fns_check(fs.drop_last(), funcs);
        assert forall|k: int| 0 <= k < fs.len() - 1 implies fs.drop_last()[k] == fs[k] by {}
        if check_fns_spec(fs, funcs).0 {
            assert forall|k: int| 0 <= k < fs.len() implies #[trigger] check_fn_spec(fs[k], funcs).0 by {
                if k < fs.len() - 1 {
                    assert(check_fn_spec(fs.drop_last()[k], funcs).0);
                }
            }
        } else if forall|k: int| 0 <= k < fs.len() ==> #[trigger] check_fn_spec(fs[k], funcs).0 {
            assert(check_fn_spec(fs[fs.len() - 1], funcs).0);
            assert forall|k: int| 0 <= k < fs.drop_last().len() implies #[trigger] check_fn_spec(fs.drop_last()[k], funcs).0 by {
                assert(check_fn_spec(fs[k], funcs).0);
            }
        }
    }
}

/// Statements are all checked, even after an error: a body checks exactly when each of its
/// statements does, and the diagnostics of `a` then `b` are those of `a` followed by those of
/// `b`.
pub proof fn lemma_stmts_all_checked(
    a: Seq<StmtView>,
    b: Seq<StmtView>,
    fn_ret: Ty,
    env: Seq<(Seq<char>, Ty)>,
    funcs: Seq<FnDefView>,
)
    ensures
        check_stmts_spec(a, fn_ret, env, funcs).0 <==> forall|k: int|
            0 <= k < a.len() ==> #[trigger] check_stmt_spec(a[k], fn_ret, env, funcs).0,
        check_stmts_spec(a + b, fn_ret, env, funcs).1 == check_stmts_spec(a, fn_ret, env, funcs).1 + check_stmts_spec(
            b,
            fn_ret,
            env,
            funcs,
        ).1,
    decreases a.len() + b.len(),
{
    if b.len() > 0 {
        assert((a + b).drop_last() =~= a + b.drop_last());
        assert((a + b).last() == b.last());
        lemma_stmts_all_checked(a, b.drop_last(), fn_ret, env, funcs);
        let x = check_stmts_spec(a, fn_ret, env, funcs).1;
        let y = check_stmts_spec(b.drop_last(), fn_ret, env, funcs).1;
        let z = check_stmt_spec(b.last(), fn_ret, env, funcs).1;
        assert(x + y + z =~= x + (y + z));
    } else {
        assert(a + b =~= a);
        assert(check_stmts_spec(b, fn_ret, env, funcs).1 =~= Seq::<DiagnosticView>::empty());
        assert(check_stmts_spec(a, fn_ret, env, funcs).1 + Seq::<DiagnosticView>::empty() =~= check_stmts_spec(a, fn_ret, env, funcs).1);
        if a.len() > 0 {
            lemma_stmts_all_checked(a.drop_last(), b, fn_ret, env, funcs);
            assert forall|k: int| 0 <= k < a.len() - 1 implies a.drop_last()[k] == a[k] by {}
            if check_stmts_spec(a, fn_ret, env, funcs).0 {
                assert forall|k: int| 0 <= k < a.len() implies #[trigger] check_stmt_spec(a[k], fn_ret, env, funcs).0 by {
                    if k < a.len() - 1 {
                        assert(check_stmt_spec(a.drop_last()[k], fn_ret, env, funcs).0);
                    }
                }
            } else if forall|k: int| 0 <= k < a.len() ==> #[trigger] check_stmt_spec(a[k], fn_ret, env, funcs).0 {
                assert(check_stmt_spec(a[a.len() - 1], fn_ret, env, funcs).0);
                assert forall|k: int| 0 <= k < a.drop_last().len() implies #[trigger] check_stmt_spec(
                    a.drop_last()[k],
                    fn_ret,
                    env,
                    funcs,
                ).0 by {
                    assert(check_stmt_spec(a[k], fn_ret, env, funcs).0);
                }
            }
        }
    }
}

/// The type checker accepts a program exactly when its function names are all different,
/// the function `main` takes no parameters and returns `Void`, and the body of every function
/// checks.
pub proof fn lemma_accepted_programs(p: ProgramView)
    ensures
        check_program_spec(p).0 <==> {
            let fs = p.items;
            &&& forall|a: int, b: int| 0 <= a < b < fs.len() ==> #[trigger] fs[a].name != #[trigger] fs[b].name
            &&& exists|m: int|
                0 <= m < fs.len() && #[trigger] fs[m].name == "main"@ && fs[m].params.len() == 0 && ret_ty_of(fs[m])
                    == Ty::Void
            &&& forall|k: int| 0 <= k < fs.len() ==> #[trigger] check_fn_spec(fs[k], fs).0
        },
{
    let fs = p.items;
    lemma_first_dup_none(fs, 0);
    lemma_find_fn(fs, "main"@);
    lemma_all_fns_check(fs, fs);
    if let Some(m) = find_fn(fs, "main"@) {
        if exists|m2: int|
            0 <= m2 < fs.len() && #[trigger] fs[m2].name == "main"@ && fs[m2].params.len() == 0 && ret_ty_of(fs[m2]) == Ty::Void {
            let m2 = choose|m2: int|
                0 <= m2 < fs.len() && #[trigger] fs[m2].name == "main"@ && fs[m2].params.len() == 0 && ret_ty_of(fs[m2])
                    == Ty::Void;
            if first_dup(fs, 0) is None && m2 != m {
                if m < m2 {
                    assert(fs[m].name != fs[m2].name);
                } else {
                    assert(fs[m2].name != fs[m].name);
                }
            }
        }
    }
}

/// `check_program` accepts a program exactly when it reports no diagnostic.
pub proof fn lemma_check_program_reports(p: ProgramView)
    ensures
        check_program_spec(p).0 <==> check_program_spec(p).1.len() == 0,
{
    lemma_check_fns_reports(p.items, p.items);
}

} // verus!
