//! The standard input and output of the kernel, as files.
use vstd::prelude::*;

pub mod stdin;
pub mod stdout;

verus! {

/// Why a file operation was refused.
#[derive(Debug, PartialEq, Eq, Structural)]
pub enum FsError {
    /// The file does not do this.
    NotSupported,
    /// An argument is not acceptable.
    InvalidParam,
}

/// The result of a file operation.
pub type FsResult<T> = Result<T, FsError>;

} // verus!
