//! NEXA (.nxa): lexer, parser, type checker, bytecode compiler and stack VM, each stated
//! over a mathematical model and proved against it.

use vstd::prelude::*;

pub mod errors;
pub mod text;
pub mod ast;
pub mod lexer;
pub mod parser;
pub mod types;
pub mod vm;
pub mod compile;
pub mod session;
pub mod examples;
pub mod driver;

verus! {
}
