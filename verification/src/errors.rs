//! What can go wrong in a backend.

use vstd::prelude::*;
use vstd::string::*;

verus! {

/// Why an operation of a backend failed.
#[derive(Debug, PartialEq, Eq)]
pub enum DFWError {
    /// The backend cannot serve the operation `method`.
    TraitMethodUnimplemented { method: String },
    /// The restore command could not be started, or its input could not be
    /// reached.
    ProcessUnavailable { reason: String },
    /// The restore command `command` ran and reported failure; `output` is
    /// what it wrote to its error stream, without the white space around it.
    ProcessFailed { command: String, output: String },
    /// The transaction could not be written to the restore command, or its
    /// end could not be awaited.
    Io { reason: String },
    /// The host refused or failed an operation that a backend passed on to
    /// it at once.
    Host { reason: String },
}

/// The message of an error.
pub open spec fn message_of(e: DFWError) -> Seq<char> {
    match e {
        DFWError::TraitMethodUnimplemented { method } => "trait method unimplemented: "@ + method@,
        DFWError::ProcessUnavailable { reason } => reason@,
        DFWError::ProcessFailed { command, output } => command@ + " failed: '"@ + output@ + "'"@,
        DFWError::Io { reason } => reason@,
        DFWError::Host { reason } => reason@,
    }
}

/// Whether `r` is the failure of a backend that cannot serve `operation`.
pub open spec fn is_unsupported<T>(r: Result<T, DFWError>, operation: Seq<char>) -> bool {
    r matches Err(DFWError::TraitMethodUnimplemented { method }) && method@ == operation
}

impl DFWError {
    /// The error of a backend that cannot serve the operation `method`.
    pub fn unimplemented(method: &str) -> (e: DFWError)
        ensures
            e matches DFWError::TraitMethodUnimplemented { method: m } && m@ == method@,
    {
        DFWError::TraitMethodUnimplemented { method: method.to_owned() }
    }

    /// The error as a message for the user.
    pub fn message(&self) -> (m: String)
        ensures
            m@ == message_of(*self),
    {
        match self {
            DFWError::TraitMethodUnimplemented { method } => {
                let mut m = String::from_str("trait method unimplemented: ");
                m.append(method.as_str());
                m
            },
            DFWError::ProcessUnavailable { reason } => reason.clone(),
            DFWError::ProcessFailed { command, output } => {
                let mut m = command.clone();
                m.append(" failed: '");
                m.append(output.as_str());
                m.append("'");
                m
            },
            DFWError::Io { reason } => reason.clone(),
            DFWError::Host { reason } => reason.clone(),
        }
    }
}

} // verus!
