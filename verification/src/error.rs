//! Error values that flow through the engine's core.
//!
//! Three classes are distinguished: user errors (an unknown column, bad
//! arguments), internal invariant violations, and wrapped runtime errors
//! from collaborators.

use vstd::prelude::*;

verus! {

/// The class of an [`EngineError`].
#[derive(Clone, Copy, Debug, PartialEq, Eq, Structural)]
pub enum ErrorKind {
    /// A column name that the schema does not hold.
    UnknownColumn,
    /// Arguments that the operation rejects.
    BadArguments,
    /// An internal invariant was violated.
    Internal,
}

/// An error carrying its class and a human-readable message.
#[derive(Clone, Debug)]
pub struct EngineError {
    pub kind: ErrorKind,
    pub message: String,
}

impl EngineError {
    pub fn unknown_column(message: String) -> (r: EngineError)
        ensures
            r.kind == ErrorKind::UnknownColumn,
            r.message == message,
    {
        EngineError { kind: ErrorKind::UnknownColumn, message }
    }

    pub fn bad_arguments(message: String) -> (r: EngineError)
        ensures
            r.kind == ErrorKind::BadArguments,
            r.message == message,
    {
        EngineError { kind: ErrorKind::BadArguments, message }
    }

    pub fn internal(message: String) -> (r: EngineError)
        ensures
            r.kind == ErrorKind::Internal,
            r.message == message,
    {
        EngineError { kind: ErrorKind::Internal, message }
    }

    pub fn kind(&self) -> (r: ErrorKind)
        ensures
            r == self.kind,
    {
        self.kind
    }

    pub fn message(&self) -> (r: &String)
        ensures
            r == self.message,
    {
        &self.message
    }
}

} // verus!
