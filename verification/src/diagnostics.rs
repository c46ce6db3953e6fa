//! Diagnostics of the text parser.
use crate::path::SxPath;
use vstd::prelude::*;

verus! {

/// Parser diagnostic with source location.
#[derive(Debug, Clone, PartialEq, Eq)]
pub struct ParseDiagnostic {
    pub message: String,
    pub line: usize,
    pub column: usize,
    pub path: Option<SxPath>,
}

impl ParseDiagnostic {
    /// A diagnostic at `line:column`, without path context.
    pub fn new(message: &str, line: usize, column: usize) -> (r: Self)
        ensures
            r.message@ == message@,
            r.line == line,
            r.column == column,
            r.path is None,
    {
        ParseDiagnostic { message: message.to_owned(), line, column, path: None }
    }
}

} // verus!
