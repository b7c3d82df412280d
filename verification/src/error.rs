//! The closed set of error kinds the library reports, with a description.

use vstd::prelude::*;

verus! {

/// What went wrong, as a category a caller can branch on.
#[derive(Debug, Clone, Copy, PartialEq, Eq, Structural)]
pub enum DocErrorKind {
    /// No config file, or no home directory to look in.
    NotFound,
    /// The config text does not parse.
    Parse,
    /// A remote fetch failed.
    Transport,
    /// A filesystem read or write failed.
    Io,
    /// The browser could not be opened.
    Launch,
}

/// An error: its kind and a human-readable description.
#[derive(Debug, PartialEq, Eq)]
pub struct DocError {
    pub kind: DocErrorKind,
    pub des: String,
}

impl DocError {
    /// An error of `kind` described by `des`.
    pub fn new(kind: DocErrorKind, des: &str) -> (r: Self)
        ensures
            r.kind == kind,
            r.des@ == des@,
    {
        DocError { kind, des: String::from_str(des) }
    }
}

} // verus!
