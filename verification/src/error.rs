//! The failures of file operations, as far as the store tells them apart.
use vstd::prelude::*;

verus! {

/// What kind of failure a file operation met.
#[derive(Debug, Clone, Copy, PartialEq, Eq, Structural)]
pub enum FileErrorKind {
    /// The file does not exist.
    NotFound,
    /// A read was interrupted by a signal and can be tried again.
    Interrupted,
    /// Any other failure: permissions, the disk, the platform.
    Other,
}

/// A failed file operation: its kind, and a description for the caller.
#[derive(Debug)]
pub struct FileError {
    pub kind: FileErrorKind,
    pub info: String,
}

} // verus!
