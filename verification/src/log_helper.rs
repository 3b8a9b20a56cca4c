//! A logged error: an error with the place that recorded it.

use vstd::prelude::*;

verus! {

/// An error and the source position where it was recorded.
#[derive(Debug, Clone, PartialEq, Eq)]
pub struct ErrLog<E> {
    /// The file the error was recorded in.
    pub file: &'static str,
    /// The line the error was recorded at.
    pub line: u32,
    /// The error itself.
    pub err: E,
}

impl<E> ErrLog<E> {
    /// Records an error with its place.
    pub fn new(file: &'static str, line: u32, err: E) -> (r: ErrLog<E>)
        ensures
            r.file == file && r.line == line && r.err == err,
    {
        ErrLog { file, line, err }
    }

    /// The recorded error.
    pub fn source(&self) -> (r: &E)
        ensures
            *r == self.err,
    {
        &self.err
    }
}

} // verus!
