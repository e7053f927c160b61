use vstd::prelude::*;

verus! {

/// Errors that a run of an interpreter reports back to the editor.
#[derive(Debug, PartialEq, Eq)]
pub enum SniprunError {
    /// The snippet did not compile; holds the compiler's (first) message line.
    CompilationError(String),
    /// The snippet compiled (or was interpreted) but failed while running.
    RuntimeError(String),
}

} // verus!
