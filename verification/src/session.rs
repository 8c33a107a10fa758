//! Compilation session: a loaded source file.

use vstd::prelude::*;

use std::path::PathBuf;

verus! {

#[verifier::external_type_specification]
#[verifier::external_body]
pub struct ExPathBuf(PathBuf);

/// A source file: where it was read from and its text.
#[derive(Debug)]
pub struct SourceFile {
    pub path: PathBuf,
    pub contents: String,
}

} // verus!
