//! The library's error type.

use vstd::prelude::*;

verus! {

/// Why an operation was refused.
#[derive(Debug, Clone, PartialEq, Eq)]
pub enum DevonError {
    /// Stored bytes break the format.
    Corrupt { context: String },
    /// The caller asked for something that cannot be done.
    InvalidArgument { context: String },
    /// The file asks for a newer reader.
    VersionMismatch { file_version: u32, min_reader_version: u32, supported: u32 },
    /// A named table, column or record does not exist.
    NotFound { what: String },
    /// The shared memory budget has no room.
    BudgetExceeded { context: String },
    /// Reading, writing or the system failed.
    Io { context: String },
}

/// The kind of a [`DevonError`], without its text.
#[derive(Debug, Clone, Copy, PartialEq, Eq, Structural)]
pub enum ErrorKind {
    Corrupt,
    InvalidArgument,
    VersionMismatch,
    NotFound,
    BudgetExceeded,
    Io,
}

/// The library's result type.
pub type DevonResult<T> = Result<T, DevonError>;

impl DevonError {
    /// The kind of this error.
    pub open spec fn kind_of(self) -> ErrorKind {
        match self {
            DevonError::Corrupt { .. } => ErrorKind::Corrupt,
            DevonError::InvalidArgument { .. } => ErrorKind::InvalidArgument,
            DevonError::VersionMismatch { .. } => ErrorKind::VersionMismatch,
            DevonError::NotFound { .. } => ErrorKind::NotFound,
            DevonError::BudgetExceeded { .. } => ErrorKind::BudgetExceeded,
            DevonError::Io { .. } => ErrorKind::Io,
        }
    }

    /// The text this error carries; a version mismatch carries numbers only.
    pub open spec fn text_of(self) -> Seq<char> {
        match self {
            DevonError::Corrupt { context } => context@,
            DevonError::InvalidArgument { context } => context@,
            DevonError::VersionMismatch { .. } => Seq::empty(),
            DevonError::NotFound { what } => what@,
            DevonError::BudgetExceeded { context } => context@,
            DevonError::Io { context } => context@,
        }
    }

    /// The kind of this error.
    pub fn kind(&self) -> (kind: ErrorKind)
        ensures
            kind == self.kind_of(),
    {
        match self {
            DevonError::Corrupt { .. } => ErrorKind::Corrupt,
            DevonError::InvalidArgument { .. } => ErrorKind::InvalidArgument,
            DevonError::VersionMismatch { .. } => ErrorKind::VersionMismatch,
            DevonError::NotFound { .. } => ErrorKind::NotFound,
            DevonError::BudgetExceeded { .. } => ErrorKind::BudgetExceeded,
            DevonError::Io { .. } => ErrorKind::Io,
        }
    }

    /// The text this error carries; a version mismatch carries numbers only.
    pub fn text(&self) -> (text: &str)
        ensures
            text@ == self.text_of(),
    {
        proof {
            reveal_strlit("");
        }
        match self {
            DevonError::Corrupt { context } => context.as_str(),
            DevonError::InvalidArgument { context } => context.as_str(),
            DevonError::VersionMismatch { .. } => "",
            DevonError::NotFound { what } => what.as_str(),
            DevonError::BudgetExceeded { context } => context.as_str(),
            DevonError::Io { context } => context.as_str(),
        }
    }
}

/// A corruption error with this text.
pub fn corrupt(context: &str) -> (error: DevonError)
    ensures
        error.kind_of() == ErrorKind::Corrupt,
        error.text_of() == context@,
{
    DevonError::Corrupt { context: context.to_owned() }
}

/// An invalid-argument error with this text.
pub fn invalid_argument(context: &str) -> (error: DevonError)
    ensures
        error.kind_of() == ErrorKind::InvalidArgument,
        error.text_of() == context@,
{
    DevonError::InvalidArgument { context: context.to_owned() }
}

/// A not-found error naming what is missing.
pub fn not_found(what: &str) -> (error: DevonError)
    ensures
        error.kind_of() == ErrorKind::NotFound,
        error.text_of() == what@,
{
    DevonError::NotFound { what: what.to_owned() }
}

/// A budget error with this text.
pub fn budget_exceeded(context: &str) -> (error: DevonError)
    ensures
        error.kind_of() == ErrorKind::BudgetExceeded,
        error.text_of() == context@,
{
    DevonError::BudgetExceeded { context: context.to_owned() }
}

/// An input or output error with this text.
pub fn io_error(context: &str) -> (error: DevonError)
    ensures
        error.kind_of() == ErrorKind::Io,
        error.text_of() == context@,
{
    DevonError::Io { context: context.to_owned() }
}

} // verus!
