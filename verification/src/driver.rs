//! The front end as one step: from source text to bytecode, or to the reason it stops.

use vstd::prelude::*;

use crate::compile::{compile, compile_spec};
use crate::errors::{DiagnosticView, Diagnostics};
use crate::lexer::{tokenize_spec, Lexer};
use crate::parser::{parse, parse_spec};
use crate::types::{check_program, check_program_spec, lemma_check_program_reports};
use crate::vm::{BytecodeView, Program};

verus! {

/// How far a source text gets through the front end.
pub enum Outcome {
    /// Lexing failed with this message.
    LexError(String),
    /// Parsing, type checking or code generation failed; the diagnostics say why.
    Rejected,
    /// The program compiled to this bytecode.
    Compiled(Program),
}

/// The mathematical content of an [`Outcome`].
pub enum OutcomeView {
    LexError(Seq<char>),
    Rejected,
    Compiled(BytecodeView),
}

impl View for Outcome {
    type V = OutcomeView;

    open spec fn view(&self) -> OutcomeView {
        match self {
            Outcome::LexError(m) => OutcomeView::LexError(m@),
            Outcome::Rejected => OutcomeView::Rejected,
            Outcome::Compiled(p) => OutcomeView::Compiled(p@),
        }
    }
}

/// The outcome of the front end on `source`, and the diagnostics it appends to `before`:
/// lexing, then parsing, then type checking (a program is refused when the checker fails
/// or any diagnostic has been reported), then code generation.
pub open spec fn build_spec(source: Seq<char>, before: Seq<DiagnosticView>) -> (OutcomeView, Seq<DiagnosticView>) {
    match tokenize_spec(source) {
        Err(m) => (OutcomeView::LexError(m), before),
        Ok(ts) => match parse_spec(ts) {
            Err(d) => (OutcomeView::Rejected, before.push(d)),
            Ok(p) => {
                let (ok, ds) = check_program_spec(p);
                let after = before + ds;
                if !ok || after.len() != 0 {
                    (OutcomeView::Rejected, after)
                } else {
                    match compile_spec(p) {
                        Err(d) => (OutcomeView::Rejected, after.push(d)),
                        Ok(b) => (OutcomeView::Compiled(b), after),
                    }
                }
            },
        },
    }
}

/// Lexes, parses, type-checks and compiles `source`, reporting into `diags` as it goes.
pub fn build(source: &str, diags: &mut Diagnostics) -> (r: Outcome)
    ensures
        r@ == build_spec(source@, old(diags)@).0,
        final(diags)@ == build_spec(source@, old(diags)@).1,
{
    let tokens = match Lexer::new(source).tokenize() {
        Ok(t) => t,
        Err(e) => {
            return Outcome::LexError(e);
        },
    };
    let ast = match parse(tokens, diags) {
        Some(ast) => ast,
        None => {
            return Outcome::Rejected;
        },
    };
    if !check_program(&ast, diags) || !diags.is_empty() {
        return Outcome::Rejected;
    }
    match compile(&ast) {
        Ok(p) => Outcome::Compiled(p),
        Err(d) => {
            diags.push(d);
            Outcome::Rejected
        },
    }
}

/// Starting with no diagnostics, the front end refuses a source exactly when it reports a
/// diagnostic: a lexing error comes with its message instead, and a compiled program with none.
pub proof fn lemma_build_reports(source: Seq<char>)
    ensures
        build_spec(source, Seq::empty()).0 is Rejected <==> build_spec(source, Seq::empty()).1.len() > 0,
{
    if let Ok(ts) = tokenize_spec(source) {
        if let Ok(p) = parse_spec(ts) {
            lemma_check_program_reports(p);
            assert(Seq::<DiagnosticView>::empty() + check_program_spec(p).1 =~= check_program_spec(p).1);
        }
    }
}

} // verus!
