//! Abstract syntax tree for NEXA (.nxa), with its mathematical views.

use vstd::prelude::*;

use crate::errors::Span;

verus! {

#[derive(Debug)]
pub struct Program {
    pub items: Vec<Item>,
}

#[derive(Debug)]
pub enum Item {
    Fn(FnDef),
}

#[derive(Debug)]
pub struct FnDef {
    pub name: String,
    pub params: Vec<Param>,
    pub ret_ty: Option<TypeExpr>,
    pub body: Block,
    pub span: Span,
}

#[derive(Debug)]
pub struct Param {
    pub name: String,
    pub ty: TypeExpr,
    pub span: Span,
}

#[derive(Clone, Copy, Debug, PartialEq, Eq, Structural)]
pub enum TypeExpr {
    Int,
    String,
    Void,
}

#[derive(Clone, Copy, Debug, PartialEq, Eq, Structural)]
pub enum BinOp {
    Add,
    Sub,
    Mul,
    Div,
}

#[derive(Debug)]
pub struct Block {
    pub stmts: Vec<Stmt>,
    pub span: Span,
}

#[derive(Debug)]
pub enum Stmt {
    Expr(Expr),
    Return { expr: Expr, span: Span },
}

#[derive(Debug)]
pub enum Expr {
    IntLit(i64, Span),
    StringLit(String, Span),
    Ident(String, Span),
    Binary { op: BinOp, lhs: Box<Expr>, rhs: Box<Expr>, span: Span },
    Call { callee: String, args: Vec<Expr>, span: Span },
}

// ---------------------------------------------------------------------------
// Views: the same trees with text as character sequences.
pub struct ProgramView {
    pub items: Seq<FnDefView>,
}

pub struct FnDefView {
    pub name: Seq<char>,
    pub params: Seq<ParamView>,
    pub ret_ty: Option<TypeExpr>,
    pub body: BlockView,
    pub span: Span,
}

pub struct ParamView {
    pub name: Seq<char>,
    pub ty: TypeExpr,
    pub span: Span,
}

pub struct BlockView {
    pub stmts: Seq<StmtView>,
    pub span: Span,
}

pub enum StmtView {
    Expr(ExprView),
    Return { expr: ExprView, span: Span },
}

pub enum ExprView {
    IntLit(i64, Span),
    StringLit(Seq<char>, Span),
    Ident(Seq<char>, Span),
    Binary { op: BinOp, lhs: Box<ExprView>, rhs: Box<ExprView>, span: Span },
    Call { callee: Seq<char>, args: Seq<ExprView>, span: Span },
}

/// The views of a sequence of expressions.
pub open spec fn exprs_view(es: Seq<Expr>) -> Seq<ExprView>
    decreases es,
{
    if es.len() == 0 {
        Seq::empty()
    } else {
        seq![es[0].view()] + exprs_view(es.drop_first())
    }
}

pub proof fn lemma_exprs_view(es: Seq<Expr>)
    ensures
        exprs_view(es).len() == es.len(),
        forall|i: int| 0 <= i < es.len() ==> #[trigger] exprs_view(es)[i] == es[i]@,
    decreases es.len(),
{
    reveal_with_fuel(exprs_view, 2);
    if es.len() == 0 {
        assert(exprs_view(es) == Seq::<ExprView>::empty());
    } else {
        assert(exprs_view(es) == seq![es[0]@] + exprs_view(es.drop_first()));
        lemma_exprs_view(es.drop_first());
        assert forall|i: int| 0 <= i < es.len() implies #[trigger] exprs_view(es)[i] == es[i]@ by {
            if i > 0 {
                assert(exprs_view(es)[i] == exprs_view(es.drop_first())[i - 1]);
            }
        }
    }
}

/// `exprs_view` distributes over appending one expression.
pub proof fn lemma_exprs_view_push(es: Seq<Expr>, e: Expr)
    ensures
        exprs_view(es.push(e)) == exprs_view(es).push(e@),
{
    lemma_exprs_view(es);
    lemma_exprs_view(es.push(e));
    assert(exprs_view(es.push(e)) =~= exprs_view(es).push(e@));
}

impl View for Expr {
    type V = ExprView;

    open spec fn view(&self) -> ExprView
        decreases self,
    {
        match self {
            Expr::IntLit(n, s) => ExprView::IntLit(*n, *s),
            Expr::StringLit(v, s) => ExprView::StringLit(v@, *s),
            Expr::Ident(v, s) => ExprView::Ident(v@, *s),
            Expr::Binary { op, lhs, rhs, span } => ExprView::Binary {
                op: *op,
                lhs: Box::new((**lhs).view()),
                rhs: Box::new((**rhs).view()),
                span: *span,
            },
            Expr::Call { callee, args, span } => ExprView::Call {
                callee: callee@,
                args: exprs_view(args@),
                span: *span,
            },
        }
    }
}

impl View for Stmt {
    type V = StmtView;

    open spec fn view(&self) -> StmtView {
        match self {
            Stmt::Expr(e) => StmtView::Expr(e@),
            Stmt::Return { expr, span } => StmtView::Return { expr: expr@, span: *span },
        }
    }
}

impl View for Block {
    type V = BlockView;

    open spec fn view(&self) -> BlockView {
        BlockView { stmts: self.stmts@.map_values(|s: Stmt| s@), span: self.span }
    }
}

impl View for Param {
    type V = ParamView;

    open spec fn view(&self) -> ParamView {
        ParamView { name: self.name@, ty: self.ty, span: self.span }
    }
}

impl View for FnDef {
    type V = FnDefView;

    open spec fn view(&self) -> FnDefView {
        FnDefView {
            name: self.name@,
            params: self.params@.map_values(|p: Param| p@),
            ret_ty: self.ret_ty,
            body: self.body@,
            span: self.span,
        }
    }
}

impl View for Item {
    type V = FnDefView;

    open spec fn view(&self) -> FnDefView {
        match self {
            Item::Fn(f) => f@,
        }
    }
}

impl View for Program {
    type V = ProgramView;

    open spec fn view(&self) -> ProgramView {
        ProgramView { items: self.items@.map_values(|i: Item| i@) }
    }
}

/// The span recorded in an expression.
pub open spec fn expr_span(e: ExprView) -> Span {
    match e {
        ExprView::IntLit(_, s) => s,
        ExprView::StringLit(_, s) => s,
        ExprView::Ident(_, s) => s,
        ExprView::Binary { span, .. } => span,
        ExprView::Call { span, .. } => span,
    }
}

impl Expr {
    pub fn span(&self) -> (s: Span)
        ensures
            s == expr_span(self@),
    {
        match self {
            Expr::IntLit(_, s) => *s,
            Expr::StringLit(_, s) => *s,
            Expr::Ident(_, s) => *s,
            Expr::Binary { span, .. } => *span,
            Expr::Call { span, .. } => *span,
        }
    }
}

} // verus!
