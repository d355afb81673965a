//! The error kinds that store operations report.

use vstd::prelude::*;

verus! {

/// Why a store operation failed.
#[derive(Clone, Copy, Debug, PartialEq, Eq, Structural)]
pub enum AppError {
    /// The named document, commit or tag does not exist.
    NotFound,
    /// A document with this filename already exists.
    Conflict,
    /// The filename or another argument is malformed.
    InvalidInput,
    /// The content storage failed.
    StorageFailure,
    /// The history repository failed.
    HistoryFailure,
    /// The metadata index failed.
    IndexFailure,
    /// The caller's identity or password was rejected.
    Auth,
}

pub type AppResult<T> = Result<T, AppError>;

} // verus!
