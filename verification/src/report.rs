//! An error wrapped with the place it was raised.

use vstd::prelude::*;

verus! {

/// An error together with the source file and line that raised it.
#[derive(Debug, Clone, PartialEq, Eq)]
pub struct Report<E> {
    /// The file the error was raised in.
    pub file: &'static str,
    /// The line the error was raised at.
    pub line: u32,
    /// The error itself.
    pub err: E,
}

impl<E> Report<E> {
    /// Wraps an error with its place.
    pub fn new(file: &'static str, line: u32, err: E) -> (r: Report<E>)
        ensures
            r.file == file && r.line == line && r.err == err,
    {
        Report { file, line, err }
    }

    /// The wrapped error.
    pub fn source(&self) -> (r: &E)
        ensures
            *r == self.err,
    {
        &self.err
    }
}

} // verus!
