//! The error kinds that the library's operations report.

use vstd::prelude::*;

verus! {

/// Everything that a template-store operation can report to its caller.
#[derive(Clone, Copy, Debug, PartialEq, Eq, Structural)]
pub enum TplError {
    /// The named template is absent from the store.
    NotFound,
    /// Creating something that is already there (a template, a directory).
    AlreadyExists,
    /// The name filter handed to an export could not be compiled.
    InvalidPattern,
    /// A computed output path was absolute or escaped its root.
    UnsafePath,
    /// An underlying read, write or create failed.
    IoFailure,
    /// An archive could not be read or was malformed.
    ArchiveCorrupt,
}

impl TplError {
    /// A user-displayable message for this error.
    pub fn message(&self) -> &'static str {
        match self {
            TplError::NotFound => "template not found",
            TplError::AlreadyExists => "already exists",
            TplError::InvalidPattern => "invalid name pattern",
            TplError::UnsafePath => "computed path was absolute or unsafe",
            TplError::IoFailure => "read or write failure",
            TplError::ArchiveCorrupt => "archive missing or malformed",
        }
    }
}

} // verus!
