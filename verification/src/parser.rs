//! Parser: tokens to the syntax tree, by recursive descent.

use vstd::prelude::*;

use crate::ast::{
    exprs_view, expr_span, lemma_exprs_view, lemma_exprs_view_push, BinOp, Block, BlockView, Expr,
    ExprView, FnDef, FnDefView, Item, Param, ParamView, Program, ProgramView, Stmt, StmtView,
    TypeExpr,
};
use crate::errors::{diag, diag_at, span_cover, Diagnostic, DiagnosticView, Diagnostics, Span};
use crate::lexer::{kind_debug_text, tokens_view, Token, TokenKind, TokenKindView, TokenView};
use crate::text::{push_str, string_of};

verus! {

// ---------------------------------------------------------------------------
// The grammar, over the views of the tokens. Each phrase parser returns the
// phrase and the number of tokens it consumed, or the diagnostic of the first
// error.
/// Tokens left from index `i`, as a termination measure.
pub open spec fn rem(toks: Seq<TokenView>, i: int) -> int {
    if i <= toks.len() {
        toks.len() - i
    } else {
        0
    }
}

/// The token at `i` has kind `k`.
pub open spec fn check_spec(toks: Seq<TokenView>, i: int, k: TokenKindView) -> bool {
    0 <= i < toks.len() && toks[i].kind == k
}

/// The token at `i` is `Eof`.
pub open spec fn at_eof_spec(toks: Seq<TokenView>, i: int) -> bool {
    0 <= i < toks.len() && toks[i].kind is Eof
}

/// Consumes a token of kind `k` and gives its span.
pub open spec fn expect_spec(toks: Seq<TokenView>, i: int, k: TokenKindView) -> Result<Span, DiagnosticView> {
    if 0 <= i < toks.len() {
        if toks[i].kind == k {
            Ok(toks[i].span)
        } else {
            Err(diag_at("expected "@ + kind_debug_text(k) + ", found "@ + kind_debug_text(toks[i].kind), toks[i].span))
        }
    } else {
        Err(diag("expected "@ + kind_debug_text(k) + ", found end of file"@))
    }
}

/// Consumes the `fn` keyword and gives its span.
pub open spec fn expect_fn_spec(toks: Seq<TokenView>, i: int) -> Result<Span, DiagnosticView> {
    if 0 <= i < toks.len() {
        if toks[i].kind is Fn {
            Ok(toks[i].span)
        } else {
            Err(diag_at("expected `fn`, found "@ + kind_debug_text(toks[i].kind), toks[i].span))
        }
    } else {
        Err(diag("expected `fn`, found end of file"@))
    }
}

/// Consumes an identifier and gives its name and span.
pub open spec fn expect_ident_spec(toks: Seq<TokenView>, i: int) -> Result<(Seq<char>, Span), DiagnosticView> {
    if 0 <= i < toks.len() {
        match toks[i].kind {
            TokenKindView::Ident(s) => Ok((s, toks[i].span)),
            _ => Err(diag_at("expected identifier, found "@ + kind_debug_text(toks[i].kind), toks[i].span)),
        }
    } else {
        Err(diag("expected identifier, found end of file"@))
    }
}

/// Consumes a type name.
pub open spec fn type_spec(toks: Seq<TokenView>, i: int) -> Result<TypeExpr, DiagnosticView> {
    if 0 <= i < toks.len() {
        match toks[i].kind {
            TokenKindView::Int => Ok(TypeExpr::Int),
            TokenKindView::String => Ok(TypeExpr::String),
            TokenKindView::Void => Ok(TypeExpr::Void),
            _ => Err(diag_at("expected type Int, String, or Void, found "@ + kind_debug_text(toks[i].kind), toks[i].span)),
        }
    } else {
        Err(diag("expected type, found end of file"@))
    }
}

/// The binary node of `op` over `lhs` and `rhs`, spanning both.
pub open spec fn binary(op: BinOp, lhs: ExprView, rhs: ExprView) -> ExprView {
    ExprView::Binary {
        op,
        lhs: Box::new(lhs),
        rhs: Box::new(rhs),
        span: span_cover(expr_span(lhs), expr_span(rhs)),
    }
}

/// `expr := additive`
pub open spec fn expr_spec(toks: Seq<TokenView>, i: int) -> Result<(ExprView, nat), DiagnosticView>
    decreases rem(toks, i), 5nat,
{
    additive_spec(toks, i)
}

/// `additive := multiplicative (("+" | "-") multiplicative)*`, left-associative.
pub open spec fn additive_spec(toks: Seq<TokenView>, i: int) -> Result<(ExprView, nat), DiagnosticView>
    decreases rem(toks, i), 4nat,
{
    match multiplicative_spec(toks, i) {
        Err(d) => Err(d),
        Ok((lhs, c)) => match additive_rest_spec(toks, i + c, lhs) {
            Err(d) => Err(d),
            Ok((e, c2)) => Ok((e, c + c2)),
        },
    }
}

/// The operator tail of an additive expression, after `lhs`, from index `j`.
pub open spec fn additive_rest_spec(toks: Seq<TokenView>, j: int, lhs: ExprView) -> Result<(ExprView, nat), DiagnosticView>
    decreases rem(toks, j), 3nat,
{
    let op = if check_spec(toks, j, TokenKindView::Plus) {
        Some(BinOp::Add)
    } else if check_spec(toks, j, TokenKindView::Minus) {
        Some(BinOp::Sub)
    } else {
        None
    };
    match op {
        None => Ok((lhs, 0)),
        Some(op) => match multiplicative_spec(toks, j + 1) {
            Err(d) => Err(d),
            Ok((rhs, c)) => match additive_rest_spec(toks, j + 1 + c, binary(op, lhs, rhs)) {
                Err(d) => Err(d),
                Ok((e, c2)) => Ok((e, 1 + c + c2)),
            },
        },
    }
}

/// `multiplicative := primary (("*" | "/") primary)*`, left-associative.
pub open spec fn multiplicative_spec(toks: Seq<TokenView>, i: int) -> Result<(ExprView, nat), DiagnosticView>
    decreases rem(toks, i), 2nat,
{
    match primary_spec(toks, i) {
        Err(d) => Err(d),
        Ok((lhs, c)) => match multiplicative_rest_spec(toks, i + c, lhs) {
            Err(d) => Err(d),
            Ok((e, c2)) => Ok((e, c + c2)),
        },
    }
}

/// The operator tail of a multiplicative expression, after `lhs`, from index `j`.
pub open spec fn multiplicative_rest_spec(toks: Seq<TokenView>, j: int, lhs: ExprView) -> Result<(ExprView, nat), DiagnosticView>
    decreases rem(toks, j), 1nat,
{
    let op = if check_spec(toks, j, TokenKindView::Star) {
        Some(BinOp::Mul)
    } else if check_spec(toks, j, TokenKindView::Slash) {
        Some(BinOp::Div)
    } else {
        None
    };
    match op {
        None => Ok((lhs, 0)),
        Some(op) => match primary_spec(toks, j + 1) {
            Err(d) => Err(d),
            Ok((rhs, c)) => match multiplicative_rest_spec(toks, j + 1 + c, binary(op, lhs, rhs)) {
                Err(d) => Err(d),
                Ok((e, c2)) => Ok((e, 1 + c + c2)),
            },
        },
    }
}

/// `primary := int | string | ident | ident "(" args? ")" | "(" expr ")"`
pub open spec fn primary_spec(toks: Seq<TokenView>, i: int) -> Result<(ExprView, nat), DiagnosticView>
    decreases rem(toks, i), 0nat,
{
    if !(0 <= i < toks.len()) {
        Err(diag("unexpected end of file in expression"@))
    } else {
        let t = toks[i];
        match t.kind {
            TokenKindView::IntLit(n) => Ok((ExprView::IntLit(n, t.span), 1)),
            TokenKindView::StringLit(s) => Ok((ExprView::StringLit(s, t.span), 1)),
            TokenKindView::Ident(name) => {
                if check_spec(toks, i + 1, TokenKindView::LParen) {
                    let args = if check_spec(toks, i + 2, TokenKindView::RParen) {
                        Ok((Seq::<ExprView>::empty(), 0nat))
                    } else {
                        args_spec(toks, i + 2)
                    };
                    match args {
                        Err(d) => Err(d),
                        Ok((args, c)) => match expect_spec(toks, i + 2 + c, TokenKindView::RParen) {
                            Err(d) => Err(d),
                            Ok(close) => Ok((
                                ExprView::Call { callee: name, args, span: span_cover(t.span, close) },
                                c + 3,
                            )),
                        },
                    }
                } else {
                    Ok((ExprView::Ident(name, t.span), 1))
                }
            },
            TokenKindView::LParen => match expr_spec(toks, i + 1) {
                Err(d) => Err(d),
                Ok((inner, c)) => match expect_spec(toks, i + 1 + c, TokenKindView::RParen) {
                    Err(d) => Err(d),
                    Ok(_) => Ok((inner, c + 2)),
                },
            },
            _ => Err(diag_at("unexpected token in expression: "@ + kind_debug_text(t.kind), t.span)),
        }
    }
}

/// `args := expr ("," expr)*`
pub open spec fn args_spec(toks: Seq<TokenView>, j: int) -> Result<(Seq<ExprView>, nat), DiagnosticView>
    decreases rem(toks, j), 6nat,
{
    match expr_spec(toks, j) {
        Err(d) => Err(d),
        Ok((e, c)) => {
            if check_spec(toks, j + c, TokenKindView::Comma) {
                match args_spec(toks, j + c + 1) {
                    Err(d) => Err(d),
                    Ok((rest, c2)) => Ok((seq![e] + rest, c + 1 + c2)),
                }
            } else {
                Ok((seq![e], c))
            }
        },
    }
}

/// `stmt := "return" expr ";" | expr ";"`
pub open spec fn stmt_spec(toks: Seq<TokenView>, i: int) -> Result<(StmtView, nat), DiagnosticView> {
    if check_spec(toks, i, TokenKindView::Return) {
        match expr_spec(toks, i + 1) {
            Err(d) => Err(d),
            Ok((e, c)) => match expect_spec(toks, i + 1 + c, TokenKindView::Semicolon) {
                Err(d) => Err(d),
                Ok(semi) => Ok((StmtView::Return { expr: e, span: span_cover(toks[i].span, semi) }, c + 2)),
            },
        }
    } else {
        match expr_spec(toks, i) {
            Err(d) => Err(d),
            Ok((e, c)) => match expect_spec(toks, i + c, TokenKindView::Semicolon) {
                Err(d) => Err(d),
                Ok(_) => Ok((StmtView::Expr(e), c + 1)),
            },
        }
    }
}

/// The statements of a block, from index `j` up to a `}` or `Eof`.
pub open spec fn stmts_spec(toks: Seq<TokenView>, j: int) -> Result<(Seq<StmtView>, nat), DiagnosticView>
    decreases rem(toks, j),
{
    if !check_spec(toks, j, TokenKindView::RBrace) && !at_eof_spec(toks, j) {
        match stmt_spec(toks, j) {
            Err(d) => Err(d),
            Ok((s, c)) => {
                proof {
                    lemma_stmt_progress(toks, j);
                }
                match stmts_spec(toks, j + c) {
                    Err(d) => Err(d),
                    Ok((rest, c2)) => Ok((seq![s] + rest, c + c2)),
                }
            },
        }
    } else {
        Ok((Seq::empty(), 0))
    }
}

/// `block := "{" stmt* "}"`
pub open spec fn block_spec(toks: Seq<TokenView>, i: int) -> Result<(BlockView, nat), DiagnosticView> {
    match expect_spec(toks, i, TokenKindView::LBrace) {
        Err(d) => Err(d),
        Ok(l) => match stmts_spec(toks, i + 1) {
            Err(d) => Err(d),
            Ok((stmts, c)) => match expect_spec(toks, i + 1 + c, TokenKindView::RBrace) {
                Err(d) => Err(d),
                Ok(r) => Ok((BlockView { stmts, span: span_cover(l, r) }, c + 2)),
            },
        },
    }
}

/// `param := ident ":" type`
pub open spec fn param_spec(toks: Seq<TokenView>, i: int) -> Result<(ParamView, nat), DiagnosticView> {
    match expect_ident_spec(toks, i) {
        Err(d) => Err(d),
        Ok((name, span)) => match expect_spec(toks, i + 1, TokenKindView::Colon) {
            Err(d) => Err(d),
            Ok(_) => match type_spec(toks, i + 2) {
                Err(d) => Err(d),
                Ok(ty) => Ok((ParamView { name, ty, span }, 3)),
            },
        },
    }
}

/// `params := param ("," param)*`
pub open spec fn params_spec(toks: Seq<TokenView>, j: int) -> Result<(Seq<ParamView>, nat), DiagnosticView>
    decreases rem(toks, j),
{
    match param_spec(toks, j) {
        Err(d) => Err(d),
        Ok((p, c)) => {
            if check_spec(toks, j + c, TokenKindView::Comma) {
                proof {
                    lemma_param_progress(toks, j);
                }
                match params_spec(toks, j + c + 1) {
                    Err(d) => Err(d),
                    Ok((rest, c2)) => Ok((seq![p] + rest, c + 1 + c2)),
                }
            } else {
                Ok((seq![p], c))
            }
        },
    }
}

/// `item := "fn" ident "(" params? ")" ("->" type)? block`
pub open spec fn item_spec(toks: Seq<TokenView>, i: int) -> Result<(FnDefView, nat), DiagnosticView> {
    match expect_fn_spec(toks, i) {
        Err(d) => Err(d),
        Ok(fn_span) => match expect_ident_spec(toks, i + 1) {
            Err(d) => Err(d),
            Ok((name, _)) => match expect_spec(toks, i + 2, TokenKindView::LParen) {
                Err(d) => Err(d),
                Ok(_) => {
                    let params = if !check_spec(toks, i + 3, TokenKindView::RParen) {
                        params_spec(toks, i + 3)
                    } else {
                        Ok((Seq::<ParamView>::empty(), 0nat))
                    };
                    match params {
                        Err(d) => Err(d),
                        Ok((params, c)) => match expect_spec(toks, i + 3 + c, TokenKindView::RParen) {
                            Err(d) => Err(d),
                            Ok(_) => {
                                let j = i + 4 + c;
                                let ret = if check_spec(toks, j, TokenKindView::Arrow) {
                                    match type_spec(toks, j + 1) {
                                        Err(d) => Err(d),
                                        Ok(t) => Ok((Some(t), 2nat)),
                                    }
                                } else {
                                    Ok((None::<TypeExpr>, 0nat))
                                };
                                match ret {
                                    Err(d) => Err(d),
                                    Ok((ret_ty, c2)) => match block_spec(toks, j + c2) {
                                        Err(d) => Err(d),
                                        Ok((body, c3)) => Ok((
                                            FnDefView { name, params, ret_ty, body, span: span_cover(fn_span, body.span) },
                                            4 + c + c2 + c3,
                                        )),
                                    },
                                }
                            },
                        },
                    }
                },
            },
        },
    }
}

/// The items of a program, from index `j` up to `Eof`.
pub open spec fn items_spec(toks: Seq<TokenView>, j: int) -> Result<Seq<FnDefView>, DiagnosticView>
    decreases rem(toks, j),
{
    if !at_eof_spec(toks, j) {
        match item_spec(toks, j) {
            Err(d) => Err(d),
            Ok((f, c)) => {
                proof {
                    lemma_item_progress(toks, j);
                }
                match items_spec(toks, j + c) {
                    Err(d) => Err(d),
                    Ok(rest) => Ok(seq![f] + rest),
                }
            },
        }
    } else {
        Ok(Seq::empty())
    }
}

/// The program the tokens spell, or the diagnostic of the first syntax error.
pub open spec fn parse_spec(toks: Seq<TokenView>) -> Result<ProgramView, DiagnosticView> {
    match items_spec(toks, 0) {
        Err(d) => Err(d),
        Ok(items) => Ok(ProgramView { items }),
    }
}

/// An expression that parses starts at a token.
pub proof fn lemma_expr_starts(toks: Seq<TokenView>, i: int)
    ensures
        expr_spec(toks, i) is Ok ==> 0 <= i < toks.len(),
{
}

pub proof fn lemma_stmt_progress(toks: Seq<TokenView>, i: int)
    ensures
        stmt_spec(toks, i) matches Ok((_, c)) ==> 0 <= i < toks.len() && c >= 1,
{
    lemma_expr_starts(toks, i);
}

pub proof fn lemma_param_progress(toks: Seq<TokenView>, i: int)
    ensures
        param_spec(toks, i) matches Ok((_, c)) ==> 0 <= i < toks.len() && c >= 1,
{
}

pub proof fn lemma_item_progress(toks: Seq<TokenView>, i: int)
    ensures
        item_spec(toks, i) matches Ok((_, c)) ==> 0 <= i < toks.len() && c >= 1,
{
}

} // verus!

verus! {

/// `r` with `p` in front of its sequence and `n` added to its count.
pub open spec fn prepend_result<T>(p: Seq<T>, n: int, r: Result<(Seq<T>, nat), DiagnosticView>) -> Result<
    (Seq<T>, nat),
    DiagnosticView,
> {
    match r {
        Ok((s, c)) => Ok((p + s, (n + c) as nat)),
        Err(d) => Err(d),
    }
}

/// `r` with `n` added to its count.
pub open spec fn add_count<T>(r: Result<(T, nat), DiagnosticView>, n: int) -> Result<(T, nat), DiagnosticView> {
    match r {
        Ok((v, c)) => Ok((v, (n + c) as nat)),
        Err(d) => Err(d),
    }
}

/// Parses `tokens` into a program. On a syntax error, pushes its diagnostic and gives `None`.
pub fn parse(tokens: Vec<Token>, diags: &mut Diagnostics) -> (r: Option<Program>)
    ensures
        match parse_spec(tokens_view(tokens@)) {
            Ok(p) => r matches Some(prog) && prog@ == p && final(diags)@ == old(diags)@,
            Err(d) => r is None && final(diags)@ == old(diags)@.push(d),
        },
{
    let mut p = Parser { tokens, idx: 0 };
    match p.parse_program() {
        Ok(prog) => Some(prog),
        Err(d) => {
            diags.push(d);
            None
        },
    }
}

struct Parser {
    tokens: Vec<Token>,
    idx: usize,
}

impl Parser {
    spec fn toks(&self) -> Seq<TokenView> {
        tokens_view(self.tokens@)
    }

    #[verifier::loop_isolation(false)]
    fn parse_program(&mut self) -> (r: Result<Program, Diagnostic>)
        requires
            old(self).idx == 0,
        ensures
            match parse_spec(old(self).toks()) {
                Ok(p) => r matches Ok(prog) && prog@ == p,
                Err(d) => r matches Err(x) && x@ == d,
            },
    {
        let ghost toks = self.toks();
        let mut items: Vec<Item> = Vec::new();
        proof {
            assert(items@.map_values(|it: Item| it@) =~= Seq::<FnDefView>::empty());
        }
        while !self.at_eof()
            invariant
                self.toks() == toks,
                self.idx <= self.tokens@.len(),
                old(self).toks() == toks,
                items_spec(toks, 0) == match items_spec(toks, self.idx as int) {
                    Ok(rest) => Ok(items@.map_values(|it: Item| it@) + rest),
                    Err(d) => Err::<Seq<FnDefView>, DiagnosticView>(d),
                },
            decreases rem(toks, self.idx as int),
        {
            let ghost j = self.idx as int;
            let ghost iv = items@.map_values(|it: Item| it@);
            let item = match self.parse_item() {
                Ok(it) => it,
                Err(d) => {
                    return Err(d);
                },
            };
            proof {
                lemma_item_progress(toks, j);
            }
            items.push(item);
            proof {
                assert(items@.map_values(|it: Item| it@) =~= iv.push(item@));
                match items_spec(toks, self.idx as int) {
                    Ok(rest) => {
                        assert(iv + (seq![item@] + rest) =~= iv.push(item@) + rest);
                    },
                    Err(_) => {},
                }
            }
        }
        proof {
            assert(items@.map_values(|it: Item| it@) + Seq::<FnDefView>::empty() =~= items@.map_values(|it: Item| it@));
        }
        Ok(Program { items })
    }

    fn parse_item(&mut self) -> (r: Result<Item, Diagnostic>)
        requires
            old(self).idx <= old(self).tokens@.len(),
        ensures
            final(self).tokens == old(self).tokens,
            final(self).idx <= final(self).tokens@.len(),
            match item_spec(old(self).toks(), old(self).idx as int) {
                Ok((f, c)) => r matches Ok(it) && it@ == f && final(self).idx == old(self).idx + c,
                Err(d) => r matches Err(x) && x@ == d,
            },
    {
        let ghost toks = self.toks();
        let ghost i = self.idx as int;
        let fn_span = match self.expect_fn() {
            Ok(s) => s,
            Err(d) => {
                return Err(d);
            },
        };
        let name = match self.expect_ident() {
            Ok(n) => n,
            Err(d) => {
                return Err(d);
            },
        };
        match self.expect(TokenKind::LParen) {
            Ok(_) => {},
            Err(d) => {
                return Err(d);
            },
        }
        let params = if !self.check(&TokenKind::RParen) {
            match self.parse_params() {
                Ok(ps) => ps,
                Err(d) => {
                    return Err(d);
                },
            }
        } else {
            let ps: Vec<Param> = Vec::new();
            proof {
                assert(ps@.map_values(|p: Param| p@) =~= Seq::<ParamView>::empty());
            }
            ps
        };
        match self.expect(TokenKind::RParen) {
            Ok(_) => {},
            Err(d) => {
                return Err(d);
            },
        }
        let ret_ty = if self.eat(&TokenKind::Arrow) {
            match self.parse_type() {
                Ok(t) => Some(t),
                Err(d) => {
                    return Err(d);
                },
            }
        } else {
            None
        };
        let body = match self.parse_block() {
            Ok(b) => b,
            Err(d) => {
                return Err(d);
            },
        };
        let span = Span::cover(fn_span, body.span);
        Ok(Item::Fn(FnDef { name, params, ret_ty, body, span }))
    }

    /// `params := param ("," param)*`
    #[verifier::loop_isolation(false)]
    fn parse_params(&mut self) -> (r: Result<Vec<Param>, Diagnostic>)
        requires
            old(self).idx <= old(self).tokens@.len(),
        ensures
            final(self).tokens == old(self).tokens,
            final(self).idx <= final(self).tokens@.len(),
            match params_spec(old(self).toks(), old(self).idx as int) {
                Ok((ps, c)) => r matches Ok(v) && v@.map_values(|p: Param| p@) == ps && final(self).idx == old(self).idx + c,
                Err(d) => r matches Err(x) && x@ == d,
            },
    {
        let ghost toks = self.toks();
        let mut params: Vec<Param> = Vec::new();
        let ghost pstart = self.idx as int;
        proof {
            assert(params@.map_values(|p: Param| p@) =~= Seq::<ParamView>::empty());
            assert(prepend_result(Seq::<ParamView>::empty(), 0, params_spec(toks, pstart)) == params_spec(toks, pstart)) by {
                match params_spec(toks, pstart) {
                    Ok((s, c)) => { assert(Seq::<ParamView>::empty() + s =~= s); },
                    Err(_) => {},
                }
            }
        }
        loop
            invariant
                self.toks() == toks,
                self.tokens == old(self).tokens,
                pstart <= self.idx <= self.tokens@.len(),
                params_spec(toks, pstart) == prepend_result(params@.map_values(|p: Param| p@), self.idx - pstart, params_spec(toks, self.idx as int)),
            decreases rem(toks, self.idx as int),
        {
            let ghost j = self.idx as int;
            let ghost pv = params@.map_values(|p: Param| p@);
            let p = match self.parse_param() {
                Ok(p) => p,
                Err(d) => {
                    return Err(d);
                },
            };
            params.push(p);
            proof {
                assert(params@.map_values(|p: Param| p@) =~= pv.push(p@));
            }
            let ghost k = self.idx as int;
            if self.eat(&TokenKind::Comma) {
                proof {
                    match params_spec(toks, self.idx as int) {
                        Ok((rest, c2)) => {
                            assert(pv + (seq![p@] + rest) =~= pv.push(p@) + rest);
                        },
                        Err(_) => {},
                    }
                }
                continue;
            }
            proof {
                assert(pv + seq![p@] =~= pv.push(p@));
            }
            break;
        }
        Ok(params)
    }

    fn parse_param(&mut self) -> (r: Result<Param, Diagnostic>)
        requires
            old(self).idx <= old(self).tokens@.len(),
        ensures
            final(self).tokens == old(self).tokens,
            final(self).idx <= final(self).tokens@.len(),
            match param_spec(old(self).toks(), old(self).idx as int) {
                Ok((p, c)) => r matches Ok(x) && x@ == p && final(self).idx == old(self).idx + c,
                Err(d) => r matches Err(x) && x@ == d,
            },
    {
        let (name, name_span) = match self.expect_ident_spanned() {
            Ok(v) => v,
            Err(d) => {
                return Err(d);
            },
        };
        match self.expect(TokenKind::Colon) {
            Ok(_) => {},
            Err(d) => {
                return Err(d);
            },
        }
        let ty = match self.parse_type() {
            Ok(t) => t,
            Err(d) => {
                return Err(d);
            },
        };
        Ok(Param { name, ty, span: name_span })
    }

    fn parse_type(&mut self) -> (r: Result<TypeExpr, Diagnostic>)
        requires
            old(self).idx <= old(self).tokens@.len(),
        ensures
            final(self).tokens == old(self).tokens,
            final(self).idx <= final(self).tokens@.len(),
            match type_spec(old(self).toks(), old(self).idx as int) {
                Ok(t) => r == Ok::<TypeExpr, Diagnostic>(t) && final(self).idx == old(self).idx + 1,
                Err(d) => r matches Err(x) && x@ == d,
            },
    {
        match self.bump() {
            Some(t) => match t.kind {
                TokenKind::Int => Ok(TypeExpr::Int),
                TokenKind::String => Ok(TypeExpr::String),
                TokenKind::Void => Ok(TypeExpr::Void),
                _ => {
                    let mut m = string_of("expected type Int, String, or Void, found ");
                    let k = t.kind.debug_text();
                    push_str(&mut m, k.as_str());
                    Err(Diagnostic::spanned(m, t.span))
                },
            },
            None => Err(Diagnostic::new(string_of("expected type, found end of file"))),
        }
    }

    #[verifier::loop_isolation(false)]
    fn parse_block(&mut self) -> (r: Result<Block, Diagnostic>)
        requires
            old(self).idx <= old(self).tokens@.len(),
        ensures
            final(self).tokens == old(self).tokens,
            final(self).idx <= final(self).tokens@.len(),
            match block_spec(old(self).toks(), old(self).idx as int) {
                Ok((b, c)) => r matches Ok(x) && x@ == b && final(self).idx == old(self).idx + c,
                Err(d) => r matches Err(x) && x@ == d,
            },
    {
        let ghost toks = self.toks();
        let l = match self.expect(TokenKind::LBrace) {
            Ok(s) => s,
            Err(d) => {
                return Err(d);
            },
        };
        let ghost sstart = self.idx as int;
        let mut stmts: Vec<Stmt> = Vec::new();
        proof {
            assert(stmts@.map_values(|s: Stmt| s@) =~= Seq::<StmtView>::empty());
            assert(prepend_result(Seq::<StmtView>::empty(), 0, stmts_spec(toks, sstart)) == stmts_spec(toks, sstart)) by {
                match stmts_spec(toks, sstart) {
                    Ok((s, c)) => { assert(Seq::<StmtView>::empty() + s =~= s); },
                    Err(_) => {},
                }
            }
        }
        while !self.check(&TokenKind::RBrace) && !self.at_eof()
            invariant
                self.toks() == toks,
                self.tokens == old(self).tokens,
                sstart <= self.idx <= self.tokens@.len(),
                stmts_spec(toks, sstart) == prepend_result(stmts@.map_values(|s: Stmt| s@), self.idx - sstart, stmts_spec(toks, self.idx as int)),
            decreases rem(toks, self.idx as int),
        {
            let ghost j = self.idx as int;
            let ghost sv = stmts@.map_values(|s: Stmt| s@);
            let s = match self.parse_stmt() {
                Ok(s) => s,
                Err(d) => {
                    return Err(d);
                },
            };
            proof {
                lemma_stmt_progress(toks, j);
            }
            stmts.push(s);
            proof {
                assert(stmts@.map_values(|s: Stmt| s@) =~= sv.push(s@));
                match stmts_spec(toks, self.idx as int) {
                    Ok((rest, c2)) => {
                        assert(sv + (seq![s@] + rest) =~= sv.push(s@) + rest);
                    },
                    Err(_) => {},
                }
            }
        }
        proof {
            assert(stmts@.map_values(|s: Stmt| s@) + Seq::<StmtView>::empty() =~= stmts@.map_values(|s: Stmt| s@));
        }
        let r = match self.expect(TokenKind::RBrace) {
            Ok(s) => s,
            Err(d) => {
                return Err(d);
            },
        };
        Ok(Block { stmts, span: Span::cover(l, r) })
    }

    fn parse_stmt(&mut self) -> (r: Result<Stmt, Diagnostic>)
        requires
            old(self).idx <= old(self).tokens@.len(),
        ensures
            final(self).tokens == old(self).tokens,
            final(self).idx <= final(self).tokens@.len(),
            match stmt_spec(old(self).toks(), old(self).idx as int) {
                Ok((s, c)) => r matches Ok(x) && x@ == s && final(self).idx == old(self).idx + c,
                Err(d) => r matches Err(x) && x@ == d,
            },
    {
        if self.check(&TokenKind::Return) {
            let r = match self.bump() {
                Some(t) => t.span,
                None => {
                    return Err(Diagnostic::new(string_of("unexpected end of file in expression")));
                },
            };
            let expr = match self.parse_expr() {
                Ok(e) => e,
                Err(d) => {
                    return Err(d);
                },
            };
            let semi = match self.expect(TokenKind::Semicolon) {
                Ok(s) => s,
                Err(d) => {
                    return Err(d);
                },
            };
            return Ok(Stmt::Return { expr, span: Span::cover(r, semi) });
        }
        let expr = match self.parse_expr() {
            Ok(e) => e,
            Err(d) => {
                return Err(d);
            },
        };
        match self.expect(TokenKind::Semicolon) {
            Ok(_) => {},
            Err(d) => {
                return Err(d);
            },
        }
        Ok(Stmt::Expr(expr))
    }

    fn parse_expr(&mut self) -> (r: Result<Expr, Diagnostic>)
        requires
            old(self).idx <= old(self).tokens@.len(),
        ensures
            final(self).tokens == old(self).tokens,
            final(self).idx <= final(self).tokens@.len(),
            match expr_spec(old(self).toks(), old(self).idx as int) {
                Ok((e, c)) => r matches Ok(x) && x@ == e && final(self).idx == old(self).idx + c,
                Err(d) => r matches Err(x) && x@ == d,
            },
        decreases rem(old(self).toks(), old(self).idx as int), 5nat,
    {
        self.parse_additive()
    }

    #[verifier::loop_isolation(false)]
    fn parse_additive(&mut self) -> (r: Result<Expr, Diagnostic>)
        requires
            old(self).idx <= old(self).tokens@.len(),
        ensures
            final(self).tokens == old(self).tokens,
            final(self).idx <= final(self).tokens@.len(),
            match additive_spec(old(self).toks(), old(self).idx as int) {
                Ok((e, c)) => r matches Ok(x) && x@ == e && final(self).idx == old(self).idx + c,
                Err(d) => r matches Err(x) && x@ == d,
            },
        decreases rem(old(self).toks(), old(self).idx as int), 4nat,
    {
        let ghost toks = self.toks();
        let ghost i0 = self.idx as int;
        let mut lhs = match self.parse_multiplicative() {
            Ok(e) => e,
            Err(d) => {
                return Err(d);
            },
        };
        loop
            invariant
                self.toks() == toks,
                self.tokens == old(self).tokens,
                old(self).toks() == toks,
                old(self).idx == i0,
                i0 <= self.idx <= self.tokens@.len(),
                additive_spec(toks, i0) == add_count(additive_rest_spec(toks, self.idx as int, lhs@), self.idx - i0),
            decreases rem(toks, self.idx as int),
        {
            let op = if self.check(&TokenKind::Plus) {
                BinOp::Add
            } else if self.check(&TokenKind::Minus) {
                BinOp::Sub
            } else {
                break;
            };
            self.bump();
            let rhs = match self.parse_multiplicative() {
                Ok(e) => e,
                Err(d) => {
                    return Err(d);
                },
            };
            let span = Span::cover(lhs.span(), rhs.span());
            lhs = Expr::Binary { op, lhs: Box::new(lhs), rhs: Box::new(rhs), span };
        }
        Ok(lhs)
    }

    #[verifier::loop_isolation(false)]
    fn parse_multiplicative(&mut self) -> (r: Result<Expr, Diagnostic>)
        requires
            old(self).idx <= old(self).tokens@.len(),
        ensures
            final(self).tokens == old(self).tokens,
            final(self).idx <= final(self).tokens@.len(),
            match multiplicative_spec(old(self).toks(), old(self).idx as int) {
                Ok((e, c)) => r matches Ok(x) && x@ == e && final(self).idx == old(self).idx + c,
                Err(d) => r matches Err(x) && x@ == d,
            },
        decreases rem(old(self).toks(), old(self).idx as int), 2nat,
    {
        let ghost toks = self.toks();
        let ghost i0 = self.idx as int;
        let mut lhs = match self.parse_primary() {
            Ok(e) => e,
            Err(d) => {
                return Err(d);
            },
        };
        loop
            invariant
                self.toks() == toks,
                self.tokens == old(self).tokens,
                old(self).toks() == toks,
                old(self).idx == i0,
                i0 <= self.idx <= self.tokens@.len(),
                multiplicative_spec(toks, i0) == add_count(multiplicative_rest_spec(toks, self.idx as int, lhs@), self.idx - i0),
            decreases rem(toks, self.idx as int),
        {
            let op = if self.check(&TokenKind::Star) {
                BinOp::Mul
            } else if self.check(&TokenKind::Slash) {
                BinOp::Div
            } else {
                break;
            };
            self.bump();
            let rhs = match self.parse_primary() {
                Ok(e) => e,
                Err(d) => {
                    return Err(d);
                },
            };
            let span = Span::cover(lhs.span(), rhs.span());
            lhs = Expr::Binary { op, lhs: Box::new(lhs), rhs: Box::new(rhs), span };
        }
        Ok(lhs)
    }

    #[verifier::loop_isolation(false)]
    fn parse_primary(&mut self) -> (r: Result<Expr, Diagnostic>)
        requires
            old(self).idx <= old(self).tokens@.len(),
        ensures
            final(self).tokens == old(self).tokens,
            final(self).idx <= final(self).tokens@.len(),
            match primary_spec(old(self).toks(), old(self).idx as int) {
                Ok((e, c)) => r matches Ok(x) && x@ == e && final(self).idx == old(self).idx + c,
                Err(d) => r matches Err(x) && x@ == d,
            },
        decreases rem(old(self).toks(), old(self).idx as int), 0nat,
    {
        let ghost toks = self.toks();
        let ghost i0 = self.idx as int;
        let t = match self.peek() {
            Some(t) => Token { kind: t.kind.duplicate(), span: t.span },
            None => {
                return Err(Diagnostic::new(string_of("unexpected end of file in expression")));
            },
        };
        match t.kind {
            TokenKind::IntLit(n) => {
                let span = t.span;
                self.bump();
                Ok(Expr::IntLit(n, span))
            },
            TokenKind::StringLit(s) => {
                let span = t.span;
                self.bump();
                Ok(Expr::StringLit(s, span))
            },
            TokenKind::Ident(name) => {
                self.bump();
                if self.check(&TokenKind::LParen) {
                    self.bump();
                    let mut args: Vec<Expr> = Vec::new();
                    let ghost astart = self.idx as int;
                    if !self.check(&TokenKind::RParen) {
                        proof {
                            lemma_exprs_view(args@);
                            assert(exprs_view(args@) =~= Seq::<ExprView>::empty());
                            assert(prepend_result(Seq::<ExprView>::empty(), 0, args_spec(toks, astart)) == args_spec(toks, astart)) by {
                                match args_spec(toks, astart) {
                                    Ok((s, c)) => { assert(Seq::<ExprView>::empty() + s =~= s); },
                                    Err(_) => {},
                                }
                            }
                        }
                        loop
                            invariant
                                self.toks() == toks,
                                self.tokens == old(self).tokens,
                                old(self).toks() == toks,
                                old(self).idx == i0,
                                i0 + 2 == astart,
                                astart <= self.idx <= self.tokens@.len(),
                                args_spec(toks, astart) == prepend_result(exprs_view(args@), self.idx - astart, args_spec(toks, self.idx as int)),
                            decreases rem(toks, self.idx as int),
                        {
                            let ghost av = exprs_view(args@);
                            let e = match self.parse_expr() {
                                Ok(e) => e,
                                Err(d) => {
                                    return Err(d);
                                },
                            };
                            proof {
                                lemma_exprs_view_push(args@, e);
                            }
                            args.push(e);
                            if self.eat(&TokenKind::Comma) {
                                proof {
                                    match args_spec(toks, self.idx as int) {
                                        Ok((rest, c2)) => {
                                            assert(av + (seq![e@] + rest) =~= av.push(e@) + rest);
                                        },
                                        Err(_) => {},
                                    }
                                }
                                continue;
                            }
                            proof {
                                assert(av + seq![e@] =~= av.push(e@));
                            }
                            break;
                        }
                    } else {
                        proof {
                            lemma_exprs_view(args@);
                            assert(exprs_view(args@) =~= Seq::<ExprView>::empty());
                        }
                    }
                    let close = match self.expect(TokenKind::RParen) {
                        Ok(s) => s,
                        Err(d) => {
                            return Err(d);
                        },
                    };
                    Ok(Expr::Call { callee: name, args, span: Span::cover(t.span, close) })
                } else {
                    Ok(Expr::Ident(name, t.span))
                }
            },
            TokenKind::LParen => {
                self.bump();
                let inner = match self.parse_expr() {
                    Ok(e) => e,
                    Err(d) => {
                        return Err(d);
                    },
                };
                match self.expect(TokenKind::RParen) {
                    Ok(_) => {},
                    Err(d) => {
                        return Err(d);
                    },
                }
                Ok(inner)
            },
            _ => {
                let mut m = string_of("unexpected token in expression: ");
                let k = t.kind.debug_text();
                push_str(&mut m, k.as_str());
                Err(Diagnostic::spanned(m, t.span))
            },
        }
    }

    fn expect_fn(&mut self) -> (r: Result<Span, Diagnostic>)
        requires
            old(self).idx <= old(self).tokens@.len(),
        ensures
            final(self).tokens == old(self).tokens,
            final(self).idx <= final(self).tokens@.len(),
            match expect_fn_spec(old(self).toks(), old(self).idx as int) {
                Ok(s) => r == Ok::<Span, Diagnostic>(s) && final(self).idx == old(self).idx + 1,
                Err(d) => r matches Err(x) && x@ == d,
            },
    {
        match self.bump() {
            Some(t) => {
                if matches!(t.kind, TokenKind::Fn) {
                    Ok(t.span)
                } else {
                    let mut m = string_of("expected `fn`, found ");
                    let k = t.kind.debug_text();
                    push_str(&mut m, k.as_str());
                    Err(Diagnostic::spanned(m, t.span))
                }
            },
            None => Err(Diagnostic::new(string_of("expected `fn`, found end of file"))),
        }
    }

    fn expect_ident(&mut self) -> (r: Result<String, Diagnostic>)
        requires
            old(self).idx <= old(self).tokens@.len(),
        ensures
            final(self).tokens == old(self).tokens,
            final(self).idx <= final(self).tokens@.len(),
            match expect_ident_spec(old(self).toks(), old(self).idx as int) {
                Ok((name, _)) => r matches Ok(s) && s@ == name && final(self).idx == old(self).idx + 1,
                Err(d) => r matches Err(x) && x@ == d,
            },
    {
        match self.expect_ident_spanned() {
            Ok((s, _)) => Ok(s),
            Err(d) => Err(d),
        }
    }

    fn expect_ident_spanned(&mut self) -> (r: Result<(String, Span), Diagnostic>)
        requires
            old(self).idx <= old(self).tokens@.len(),
        ensures
            final(self).tokens == old(self).tokens,
            final(self).idx <= final(self).tokens@.len(),
            match expect_ident_spec(old(self).toks(), old(self).idx as int) {
                Ok((name, span)) => r matches Ok((s, sp)) && s@ == name && sp == span && final(self).idx == old(self).idx + 1,
                Err(d) => r matches Err(x) && x@ == d,
            },
    {
        match self.bump() {
            Some(t) => match t.kind {
                TokenKind::Ident(s) => Ok((s, t.span)),
                _ => {
                    let mut m = string_of("expected identifier, found ");
                    let k = t.kind.debug_text();
                    push_str(&mut m, k.as_str());
                    Err(Diagnostic::spanned(m, t.span))
                },
            },
            None => Err(Diagnostic::new(string_of("expected identifier, found end of file"))),
        }
    }

    fn expect(&mut self, kind: TokenKind) -> (r: Result<Span, Diagnostic>)
        requires
            old(self).idx <= old(self).tokens@.len(),
        ensures
            final(self).tokens == old(self).tokens,
            final(self).idx <= final(self).tokens@.len(),
            match expect_spec(old(self).toks(), old(self).idx as int, kind@) {
                Ok(s) => r == Ok::<Span, Diagnostic>(s) && final(self).idx == old(self).idx + 1,
                Err(d) => r matches Err(x) && x@ == d,
            },
    {
        match self.bump() {
            Some(t) => {
                if token_eq(&t.kind, &kind) {
                    Ok(t.span)
                } else {
                    let mut m = string_of("expected ");
                    let k = kind.debug_text();
                    push_str(&mut m, k.as_str());
                    push_str(&mut m, ", found ");
                    let f = t.kind.debug_text();
                    push_str(&mut m, f.as_str());
                    Err(Diagnostic::spanned(m, t.span))
                }
            },
            None => {
                let mut m = string_of("expected ");
                let k = kind.debug_text();
                push_str(&mut m, k.as_str());
                push_str(&mut m, ", found end of file");
                Err(Diagnostic::new(m))
            },
        }
    }

    /// Consumes the current token when it has kind `kind`.
    fn eat(&mut self, kind: &TokenKind) -> (b: bool)
        requires
            old(self).idx <= old(self).tokens@.len(),
        ensures
            final(self).tokens == old(self).tokens,
            b == check_spec(old(self).toks(), old(self).idx as int, kind@),
            final(self).idx == if b { old(self).idx + 1 } else { old(self).idx as int },
    {
        if self.check(kind) {
            self.bump();
            true
        } else {
            false
        }
    }

    fn check(&self, kind: &TokenKind) -> (b: bool)
        ensures
            b == check_spec(self.toks(), self.idx as int, kind@),
    {
        match self.peek() {
            Some(t) => token_eq(&t.kind, kind),
            None => false,
        }
    }

    fn at_eof(&self) -> (b: bool)
        ensures
            b == at_eof_spec(self.toks(), self.idx as int),
    {
        match self.peek() {
            Some(t) => matches!(t.kind, TokenKind::Eof),
            None => false,
        }
    }

    fn peek(&self) -> (r: Option<&Token>)
        ensures
            self.idx < self.tokens@.len() ==> (r matches Some(t) && t@ == self.toks()[self.idx as int]),
            self.idx >= self.tokens@.len() ==> r is None,
    {
        if self.idx < self.tokens.len() {
            Some(&self.tokens[self.idx])
        } else {
            None
        }
    }

    fn bump(&mut self) -> (r: Option<Token>)
        requires
            old(self).idx <= old(self).tokens@.len(),
        ensures
            final(self).tokens == old(self).tokens,
            old(self).idx < old(self).tokens@.len() ==> (r matches Some(t) && t@ == old(self).toks()[old(self).idx as int]
                && final(self).idx == old(self).idx + 1),
            old(self).idx >= old(self).tokens@.len() ==> r is None && final(self).idx == old(self).idx,
    {
        if self.idx < self.tokens.len() {
            let t = &self.tokens[self.idx];
            let copy = Token { kind: t.kind.duplicate(), span: t.span };
            self.idx = self.idx + 1;
            Some(copy)
        } else {
            None
        }
    }
}

/// Token kinds are equal: same variant and, for identifiers and literals, same payload.
pub fn token_eq(a: &TokenKind, b: &TokenKind) -> (r: bool)
    ensures
        r == (a@ == b@),
{
    match (a, b) {
        (TokenKind::Fn, TokenKind::Fn) => true,
        (TokenKind::Return, TokenKind::Return) => true,
        (TokenKind::Int, TokenKind::Int) => true,
        (TokenKind::String, TokenKind::String) => true,
        (TokenKind::Void, TokenKind::Void) => true,
        (TokenKind::Plus, TokenKind::Plus) => true,
        (TokenKind::Minus, TokenKind::Minus) => true,
        (TokenKind::Star, TokenKind::Star) => true,
        (TokenKind::Slash, TokenKind::Slash) => true,
        (TokenKind::LParen, TokenKind::LParen) => true,
        (TokenKind::RParen, TokenKind::RParen) => true,
        (TokenKind::LBrace, TokenKind::LBrace) => true,
        (TokenKind::RBrace, TokenKind::RBrace) => true,
        (TokenKind::Comma, TokenKind::Comma) => true,
        (TokenKind::Semicolon, TokenKind::Semicolon) => true,
        (TokenKind::Colon, TokenKind::Colon) => true,
        (TokenKind::Arrow, TokenKind::Arrow) => true,
        (TokenKind::Eof, TokenKind::Eof) => true,
        (TokenKind::Ident(x), TokenKind::Ident(y)) => *x == *y,
        (TokenKind::IntLit(x), TokenKind::IntLit(y)) => *x == *y,
        (TokenKind::StringLit(x), TokenKind::StringLit(y)) => *x == *y,
        _ => false,
    }
}

} // verus!

verus! {

/// The `*` or `/` operator at token `j`, if there is one.
pub open spec fn mul_op_at(toks: Seq<TokenView>, j: int) -> Option<BinOp> {
    if 0 <= j < toks.len() && toks[j].kind == TokenKindView::Star {
        Some(BinOp::Mul)
    } else if 0 <= j < toks.len() && toks[j].kind == TokenKindView::Slash {
        Some(BinOp::Div)
    } else {
        None
    }
}

/// The `+` or `-` operator at token `j`, if there is one.
pub open spec fn add_op_at(toks: Seq<TokenView>, j: int) -> Option<BinOp> {
    if 0 <= j < toks.len() && toks[j].kind == TokenKindView::Plus {
        Some(BinOp::Add)
    } else if 0 <= j < toks.len() && toks[j].kind == TokenKindView::Minus {
        Some(BinOp::Sub)
    } else {
        None
    }
}

/// The `*` or `/` operator `m` tokens after `i`, if there is one.
pub open spec fn mul_op_after(toks: Seq<TokenView>, i: int, m: nat) -> Option<BinOp> {
    mul_op_at(toks, i + m)
}

/// The `+` or `-` operator `m` tokens after `i`, if there is one.
pub open spec fn add_op_after(toks: Seq<TokenView>, i: int, m: nat) -> Option<BinOp> {
    add_op_at(toks, i + m)
}

/// `e` groups the `n` tokens from `i` as primaries joined by `*` and `/`, nested to the left:
/// either one primary, or such a group followed by an operator and one more primary.
pub open spec fn product_chain(toks: Seq<TokenView>, i: int, e: ExprView, n: nat) -> bool
    decreases n,
{
    ||| primary_spec(toks, i) == Ok::<(ExprView, nat), DiagnosticView>((e, n))
    ||| exists|m: nat, op: BinOp, lhs: ExprView, rhs: ExprView|
        #![trigger mul_op_after(toks, i, m), binary(op, lhs, rhs)]
        m < n && e == binary(op, lhs, rhs) && mul_op_after(toks, i, m) == Some(op) && primary_spec(toks, i + m + 1)
            == Ok::<(ExprView, nat), DiagnosticView>((rhs, (n - m - 1) as nat)) && product_chain(toks, i, lhs, m)
}

/// `e` groups the `n` tokens from `i` as products joined by `+` and `-`, nested to the left:
/// either one product, or such a group followed by an operator and one more product.
pub open spec fn sum_chain(toks: Seq<TokenView>, i: int, e: ExprView, n: nat) -> bool
    decreases n,
{
    ||| multiplicative_spec(toks, i) == Ok::<(ExprView, nat), DiagnosticView>((e, n))
    ||| exists|m: nat, op: BinOp, lhs: ExprView, rhs: ExprView|
        #![trigger add_op_after(toks, i, m), binary(op, lhs, rhs)]
        m < n && e == binary(op, lhs, rhs) && add_op_after(toks, i, m) == Some(op) && multiplicative_spec(toks, i + m + 1)
            == Ok::<(ExprView, nat), DiagnosticView>((rhs, (n - m - 1) as nat)) && sum_chain(toks, i, lhs, m)
}

proof fn lemma_product_rest(toks: Seq<TokenView>, i: int, j: int, lhs: ExprView)
    requires
        i <= j,
        product_chain(toks, i, lhs, (j - i) as nat),
    ensures
        multiplicative_rest_spec(toks, j, lhs) matches Ok((e, c)) ==> product_chain(toks, i, e, (j - i + c) as nat)
            && mul_op_at(toks, j + c) is None,
    decreases rem(toks, j),
{
    if let Some(op) = mul_op_at(toks, j) {
        if let Ok((rhs, c)) = primary_spec(toks, j + 1) {
            let nl = binary(op, lhs, rhs);
            let m = (j - i) as nat;
            let n = (j - i + 1 + c) as nat;
            assert(product_chain(toks, i, nl, n)) by {
                assert(i + m == j && (n - m - 1) as nat == c);
                assert(mul_op_after(toks, i, m) == Some(op));
                assert(primary_spec(toks, i + m + 1) == Ok::<(ExprView, nat), DiagnosticView>((rhs, (n - m - 1) as nat)));
                assert(product_chain(toks, i, lhs, m));
            }
            lemma_product_rest(toks, i, j + 1 + c, nl);
        }
    }
}

#[verifier::rlimit(80)]
proof fn lemma_sum_rest(toks: Seq<TokenView>, i: int, j: int, lhs: ExprView)
    requires
        i <= j,
        sum_chain(toks, i, lhs, (j - i) as nat),
    ensures
        additive_rest_spec(toks, j, lhs) matches Ok((e, c)) ==> sum_chain(toks, i, e, (j - i + c) as nat) && add_op_at(
            toks,
            j + c,
        ) is None,
    decreases rem(toks, j),
{
    if let Some(op) = add_op_at(toks, j) {
        if let Ok((rhs, c)) = multiplicative_spec(toks, j + 1) {
            let nl = binary(op, lhs, rhs);
            let m = (j - i) as nat;
            let n = (j - i + 1 + c) as nat;
            assert(sum_chain(toks, i, nl, n)) by {
                assert(i + m == j && (n - m - 1) as nat == c);
                assert(add_op_after(toks, i, m) == Some(op));
                assert(multiplicative_spec(toks, i + m + 1) == Ok::<(ExprView, nat), DiagnosticView>((rhs, (n - m - 1) as nat)));
                assert(sum_chain(toks, i, lhs, m));
            }
            lemma_sum_rest(toks, i, j + 1 + c, nl);
        }
    }
}

/// `*` and `/` group to the left and take single primaries as operands: `a / b / c` is
/// `(a / b) / c`. A parsed product is a left-nested chain over exactly the tokens it read, and
/// it stops only where no `*` or `/` follows.
pub proof fn lemma_products_nest_left(toks: Seq<TokenView>, i: int)
    ensures
        multiplicative_spec(toks, i) matches Ok((e, n)) ==> product_chain(toks, i, e, n) && mul_op_at(toks, i + n) is None,
{
    if let Ok((lhs, c)) = primary_spec(toks, i) {
        lemma_product_rest(toks, i, i + c, lhs);
    }
}

/// `+` and `-` group to the left and bind more loosely than `*` and `/`: their operands are
/// whole products, so `a - b - c` is `(a - b) - c` and `a + b * c` is `a + (b * c)`. A parsed
/// expression is a left-nested chain of products over exactly the tokens it read, and it stops
/// only where no operator follows.
pub proof fn lemma_sums_nest_left(toks: Seq<TokenView>, i: int)
    ensures
        expr_spec(toks, i) matches Ok((e, n)) ==> sum_chain(toks, i, e, n) && add_op_at(toks, i + n) is None
            && mul_op_at(toks, i + n) is None,
{
    if let Ok((lhs, c)) = multiplicative_spec(toks, i) {
        lemma_products_nest_left(toks, i);
        lemma_sum_rest(toks, i, i + c, lhs);
        if let Ok((e, c2)) = additive_rest_spec(toks, i + c, lhs) {
            if c2 > 0 {
                lemma_sum_tail_stops(toks, i + c, lhs);
            }
        }
    }
}

/// Where a non-empty additive tail ends, no `*` or `/` follows.
proof fn lemma_sum_tail_stops(toks: Seq<TokenView>, j: int, lhs: ExprView)
    ensures
        additive_rest_spec(toks, j, lhs) matches Ok((e, c)) ==> c == 0 || mul_op_at(toks, j + c) is None,
    decreases rem(toks, j),
{
    if let Some(op) = add_op_at(toks, j) {
        lemma_products_nest_left(toks, j + 1);
        if let Ok((rhs, c)) = multiplicative_spec(toks, j + 1) {
            lemma_sum_tail_stops(toks, j + 1 + c, binary(op, lhs, rhs));
        }
    }
}

/// Argument `k` of `args` is the expression at `pos[k]`; the next one starts just after a
/// comma that follows it, or, for the last one, it ends at `j + n` with no comma after it.
pub open spec fn arg_at(toks: Seq<TokenView>, j: int, args: Seq<ExprView>, n: nat, pos: Seq<int>, k: int) -> bool {
    match expr_spec(toks, pos[k]) {
        Ok((a, c)) => {
            &&& a == args[k]
            &&& k + 1 < args.len() ==> check_spec(toks, pos[k] + c, TokenKindView::Comma) && pos[k + 1] == pos[k] + c + 1
            &&& k + 1 == args.len() ==> pos[k] + c == j + n && !check_spec(toks, j + n, TokenKindView::Comma)
        },
        Err(_) => false,
    }
}

/// `args` are the expressions at the positions `pos`, in that order, the first one at `j`.
pub open spec fn args_at(toks: Seq<TokenView>, j: int, args: Seq<ExprView>, n: nat, pos: Seq<int>) -> bool {
    &&& args.len() >= 1
    &&& pos.len() == args.len()
    &&& pos[0] == j
    &&& forall|k: int| 0 <= k < args.len() ==> #[trigger] arg_at(toks, j, args, n, pos, k)
}

/// Call arguments come out in the order they are written, each one a whole expression, and
/// separated by commas.
pub proof fn lemma_args_in_order(toks: Seq<TokenView>, j: int)
    ensures
        args_spec(toks, j) is Ok ==> exists|pos: Seq<int>|
            #[trigger] args_at(toks, j, args_spec(toks, j)->Ok_0.0, args_spec(toks, j)->Ok_0.1, pos),
    decreases rem(toks, j),
{
    if let Ok((e, c)) = expr_spec(toks, j) {
        if check_spec(toks, j + c, TokenKindView::Comma) {
            lemma_args_in_order(toks, j + c + 1);
            if let Ok((rest, c2)) = args_spec(toks, j + c + 1) {
                let p2 = choose|pos: Seq<int>| #[trigger] args_at(toks, j + c + 1, rest, c2, pos);
                let pos = seq![j] + p2;
                let args = seq![e] + rest;
                let n = (c + 1 + c2) as nat;
                assert forall|k: int| 0 <= k < args.len() implies #[trigger] arg_at(toks, j, args, n, pos, k) by {
                    if k > 0 {
                        assert(pos[k] == p2[k - 1]);
                        assert(args[k] == rest[k - 1]);
                        assert(arg_at(toks, j + c + 1, rest, c2, p2, k - 1));
                        if k + 1 < args.len() {
                            assert(pos[k + 1] == p2[k]);
                        }
                    } else {
                        assert(pos[1] == p2[0]);
                    }
                }
                assert(args_at(toks, j, args, n, pos));
                assert(args_spec(toks, j) == Ok::<(Seq<ExprView>, nat), DiagnosticView>((args, n)));
                assert(args_spec(toks, j)->Ok_0.0 == args && args_spec(toks, j)->Ok_0.1 == n);
                assert(args_at(toks, j, args_spec(toks, j)->Ok_0.0, args_spec(toks, j)->Ok_0.1, pos));
            } else {
                assert(args_spec(toks, j) is Err);
            }
        } else {
            let pos = seq![j];
            assert(arg_at(toks, j, seq![e], c, pos, 0));
            assert(args_at(toks, j, seq![e], c, pos));
            assert(args_spec(toks, j) == Ok::<(Seq<ExprView>, nat), DiagnosticView>((seq![e], c)));
            assert(args_spec(toks, j)->Ok_0.0 == seq![e] && args_spec(toks, j)->Ok_0.1 == c);
            assert(args_at(toks, j, args_spec(toks, j)->Ok_0.0, args_spec(toks, j)->Ok_0.1, pos));
        }
    } else {
        assert(args_spec(toks, j) is Err);
    }
}

/// Parameter `k` of `ps` is the one at `pos[k]`; the next one starts just after a comma that
/// follows it, or, for the last one, it ends at `j + n` with no comma after it.
pub open spec fn param_at(toks: Seq<TokenView>, j: int, ps: Seq<ParamView>, n: nat, pos: Seq<int>, k: int) -> bool {
    match param_spec(toks, pos[k]) {
        Ok((p, c)) => {
            &&& p == ps[k]
            &&& k + 1 < ps.len() ==> check_spec(toks, pos[k] + c, TokenKindView::Comma) && pos[k + 1] == pos[k] + c + 1
            &&& k + 1 == ps.len() ==> pos[k] + c == j + n && !check_spec(toks, j + n, TokenKindView::Comma)
        },
        Err(_) => false,
    }
}

/// `ps` are the parameters at the positions `pos`, in that order, the first one at `j`.
pub open spec fn params_at(toks: Seq<TokenView>, j: int, ps: Seq<ParamView>, n: nat, pos: Seq<int>) -> bool {
    &&& ps.len() >= 1
    &&& pos.len() == ps.len()
    &&& pos[0] == j
    &&& forall|k: int| 0 <= k < ps.len() ==> #[trigger] param_at(toks, j, ps, n, pos, k)
}

/// Parameters come out in the order they are written, separated by commas.
pub proof fn lemma_params_in_order(toks: Seq<TokenView>, j: int)
    ensures
        params_spec(toks, j) is Ok ==> exists|pos: Seq<int>|
            #[trigger] params_at(toks, j, params_spec(toks, j)->Ok_0.0, params_spec(toks, j)->Ok_0.1, pos),
    decreases rem(toks, j),
{
    if let Ok((p, c)) = param_spec(toks, j) {
        if check_spec(toks, j + c, TokenKindView::Comma) {
            lemma_params_in_order(toks, j + c + 1);
            if let Ok((rest, c2)) = params_spec(toks, j + c + 1) {
                let p2 = choose|pos: Seq<int>| #[trigger] params_at(toks, j + c + 1, rest, c2, pos);
                let pos = seq![j] + p2;
                let ps = seq![p] + rest;
                let n = (c + 1 + c2) as nat;
                assert forall|k: int| 0 <= k < ps.len() implies #[trigger] param_at(toks, j, ps, n, pos, k) by {
                    if k > 0 {
                        assert(pos[k] == p2[k - 1]);
                        assert(ps[k] == rest[k - 1]);
                        assert(param_at(toks, j + c + 1, rest, c2, p2, k - 1));
                        if k + 1 < ps.len() {
                            assert(pos[k + 1] == p2[k]);
                        }
                    } else {
                        assert(pos[1] == p2[0]);
                    }
                }
                assert(params_at(toks, j, ps, n, pos));
                assert(params_spec(toks, j) == Ok::<(Seq<ParamView>, nat), DiagnosticView>((ps, n)));
                assert(params_spec(toks, j)->Ok_0.0 == ps && params_spec(toks, j)->Ok_0.1 == n);
                assert(params_at(toks, j, params_spec(toks, j)->Ok_0.0, params_spec(toks, j)->Ok_0.1, pos));
            } else {
                assert(params_spec(toks, j) is Err);
            }
        } else {
            let pos = seq![j];
            assert(param_at(toks, j, seq![p], c, pos, 0));
            assert(params_at(toks, j, seq![p], c, pos));
            assert(params_spec(toks, j) == Ok::<(Seq<ParamView>, nat), DiagnosticView>((seq![p], c)));
            assert(params_spec(toks, j)->Ok_0.0 == seq![p] && params_spec(toks, j)->Ok_0.1 == c);
            assert(params_at(toks, j, params_spec(toks, j)->Ok_0.0, params_spec(toks, j)->Ok_0.1, pos));
        }
    } else {
        assert(params_spec(toks, j) is Err);
    }
}

/// Statement `k` of `ss` is the one at `pos[k]`; the next one starts right after it, and the
/// last one ends at `j + n`.
pub open spec fn stmt_at(toks: Seq<TokenView>, j: int, ss: Seq<StmtView>, n: nat, pos: Seq<int>, k: int) -> bool {
    match stmt_spec(toks, pos[k]) {
        Ok((st, c)) => {
            &&& st == ss[k]
            &&& k + 1 < ss.len() ==> pos[k + 1] == pos[k] + c
            &&& k + 1 == ss.len() ==> pos[k] + c == j + n
        },
        Err(_) => false,
    }
}

/// `ss` are the statements at the positions `pos`, in that order, the first one at `j`, and
/// the tokens from `j` to `j + n` hold nothing else; a `}` or the end of the tokens follows.
pub open spec fn stmts_at(toks: Seq<TokenView>, j: int, ss: Seq<StmtView>, n: nat, pos: Seq<int>) -> bool {
    &&& pos.len() == ss.len()
    &&& ss.len() == 0 ==> n == 0
    &&& ss.len() > 0 ==> pos[0] == j
    &&& forall|k: int| 0 <= k < ss.len() ==> #[trigger] stmt_at(toks, j, ss, n, pos, k)
    &&& check_spec(toks, j + n, TokenKindView::RBrace) || at_eof_spec(toks, j + n)
}

/// The statements of a block come out in the order they are written, one after another, up
/// to the closing `}` (or the end of the tokens).
pub proof fn lemma_stmts_in_order(toks: Seq<TokenView>, j: int)
    ensures
        stmts_spec(toks, j) is Ok ==> exists|pos: Seq<int>|
            #[trigger] stmts_at(toks, j, stmts_spec(toks, j)->Ok_0.0, stmts_spec(toks, j)->Ok_0.1, pos),
    decreases rem(toks, j),
{
    if !check_spec(toks, j, TokenKindView::RBrace) && !at_eof_spec(toks, j) {
        if let Ok((st, c)) = stmt_spec(toks, j) {
            lemma_stmt_progress(toks, j);
            lemma_stmts_in_order(toks, j + c);
            if let Ok((rest, c2)) = stmts_spec(toks, j + c) {
                let p2 = choose|pos: Seq<int>| #[trigger] stmts_at(toks, j + c, rest, c2, pos);
                let pos = seq![j] + p2;
                let ss = seq![st] + rest;
                let n = (c + c2) as nat;
                assert forall|k: int| 0 <= k < ss.len() implies #[trigger] stmt_at(toks, j, ss, n, pos, k) by {
                    if k > 0 {
                        assert(pos[k] == p2[k - 1]);
                        assert(ss[k] == rest[k - 1]);
                        assert(stmt_at(toks, j + c, rest, c2, p2, k - 1));
                        if k + 1 < ss.len() {
                            assert(pos[k + 1] == p2[k]);
                        }
                    } else if rest.len() > 0 {
                        assert(pos[1] == p2[0]);
                    }
                }
                assert(stmts_at(toks, j, ss, n, pos));
                assert(stmts_spec(toks, j) == Ok::<(Seq<StmtView>, nat), DiagnosticView>((ss, n)));
                assert(stmts_spec(toks, j)->Ok_0.0 == ss && stmts_spec(toks, j)->Ok_0.1 == n);
                assert(stmts_at(toks, j, stmts_spec(toks, j)->Ok_0.0, stmts_spec(toks, j)->Ok_0.1, pos));
            } else {
                assert(stmts_spec(toks, j) is Err);
            }
        } else {
            assert(stmts_spec(toks, j) is Err);
        }
    } else {
        let pos = Seq::<int>::empty();
        assert(stmts_spec(toks, j) == Ok::<(Seq<StmtView>, nat), DiagnosticView>((Seq::empty(), 0)));
        assert(stmts_at(toks, j, Seq::empty(), 0, pos));
        assert(stmts_spec(toks, j)->Ok_0.0 == Seq::<StmtView>::empty() && stmts_spec(toks, j)->Ok_0.1 == 0);
        assert(stmts_at(toks, j, stmts_spec(toks, j)->Ok_0.0, stmts_spec(toks, j)->Ok_0.1, pos));
    }
}

/// The type names read as the types they name, and nothing else is a type.
pub proof fn lemma_type_names(toks: Seq<TokenView>, i: int)
    ensures
        type_spec(toks, i) is Ok <==> (0 <= i < toks.len() && (toks[i].kind is Int || toks[i].kind is String
            || toks[i].kind is Void)),
        type_spec(toks, i) == Ok::<TypeExpr, DiagnosticView>(TypeExpr::Int) <==> (0 <= i < toks.len()
            && toks[i].kind is Int),
        type_spec(toks, i) == Ok::<TypeExpr, DiagnosticView>(TypeExpr::String) <==> (0 <= i < toks.len()
            && toks[i].kind is String),
        type_spec(toks, i) == Ok::<TypeExpr, DiagnosticView>(TypeExpr::Void) <==> (0 <= i < toks.len()
            && toks[i].kind is Void),
{
}

/// A parameter is written `name : Type`, three tokens, and keeps that name and type.
pub proof fn lemma_param_form(toks: Seq<TokenView>, i: int)
    ensures
        param_spec(toks, i) is Ok ==> {
            let (p, n) = param_spec(toks, i)->Ok_0;
            &&& n == 3
            &&& 0 <= i && i + 2 < toks.len()
            &&& toks[i].kind == TokenKindView::Ident(p.name)
            &&& toks[i + 1].kind is Colon
            &&& type_spec(toks, i + 2) == Ok::<TypeExpr, DiagnosticView>(p.ty)
        },
{
}

/// A function definition starts `fn name (`: its name is the identifier after `fn`, and it
/// reads its parameters in order from just after the `(`.
pub proof fn lemma_function_header(toks: Seq<TokenView>, i: int)
    ensures
        item_spec(toks, i) is Ok ==> {
            let f = item_spec(toks, i)->Ok_0.0;
            &&& 0 <= i && i + 3 < toks.len()
            &&& toks[i].kind is Fn
            &&& toks[i + 1].kind == TokenKindView::Ident(f.name)
            &&& toks[i + 2].kind is LParen
            &&& toks[i + 3].kind is RParen ==> f.params.len() == 0
            &&& !(toks[i + 3].kind is RParen) ==> params_spec(toks, i + 3) is Ok && f.params == params_spec(toks, i + 3)->Ok_0.0
        },
{
    lemma_param_progress(toks, i + 3);
}

/// Function `k` of `fs` is the definition at `pos[k]`, and the next one starts right after it.
pub open spec fn item_at(toks: Seq<TokenView>, fs: Seq<FnDefView>, pos: Seq<int>, k: int) -> bool {
    match item_spec(toks, pos[k]) {
        Ok((f, c)) => f == fs[k] && pos[k + 1] == pos[k] + c,
        Err(_) => false,
    }
}

/// `fs` are the definitions at the positions `pos`, in order, from `j` up to `Eof`.
pub open spec fn items_at(toks: Seq<TokenView>, j: int, fs: Seq<FnDefView>, pos: Seq<int>) -> bool {
    &&& pos.len() == fs.len() + 1
    &&& pos[0] == j
    &&& forall|k: int| 0 <= k < fs.len() ==> #[trigger] item_at(toks, fs, pos, k)
    &&& at_eof_spec(toks, pos[fs.len() as int])
}

/// A program's functions come out in the order they are written, one right after another,
/// up to `Eof`.
pub proof fn lemma_items_in_order(toks: Seq<TokenView>, j: int)
    ensures
        items_spec(toks, j) is Ok ==> exists|pos: Seq<int>| #[trigger] items_at(toks, j, items_spec(toks, j)->Ok_0, pos),
    decreases rem(toks, j),
{
    if !at_eof_spec(toks, j) {
        if let Ok((f, c)) = item_spec(toks, j) {
            lemma_item_progress(toks, j);
            lemma_items_in_order(toks, j + c);
            if let Ok(rest) = items_spec(toks, j + c) {
                let p2 = choose|pos: Seq<int>| #[trigger] items_at(toks, j + c, rest, pos);
                let pos = seq![j] + p2;
                let fs = seq![f] + rest;
                assert forall|k: int| 0 <= k < fs.len() implies #[trigger] item_at(toks, fs, pos, k) by {
                    assert(pos[k + 1] == p2[k]);
                    if k > 0 {
                        assert(pos[k] == p2[k - 1]);
                        assert(fs[k] == rest[k - 1]);
                        assert(item_at(toks, rest, p2, k - 1));
                    }
                }
                assert(pos[fs.len() as int] == p2[rest.len() as int]);
                assert(items_at(toks, j, fs, pos));
                assert(items_spec(toks, j)->Ok_0 == fs);
            }
        }
    } else {
        let pos = seq![j];
        assert(items_spec(toks, j)->Ok_0 =~= Seq::<FnDefView>::empty());
        assert(items_at(toks, j, Seq::empty(), pos));
    }
}

} // verus!
