//! The closed set of failures an operation can report, one variant per
//! cause, each carrying the offending name or a human-readable message.

use vstd::prelude::*;

verus! {

/// A failure of a registry operation or of the codec.
#[derive(Debug, Clone, PartialEq, Eq)]
pub enum AppError {
    /// The document given to `decode` is not a canonical registry document.
    BadJson(String),
    /// A project name that looks like a repository URL.
    InvalidName(String),
    /// A project name that is already taken.
    DuplicateProject(String),
    /// A project name that is not a key of `projects`.
    UnknownProject(String),
    /// A tag name that is not a key of the tag catalog.
    UnknownTag(String),
    /// An invariant violation that should never be reachable.
    InternalError(String),
}

/// The mathematical value of an error: the same variants over
/// character sequences.
pub enum AppErrorV {
    BadJson(Seq<char>),
    InvalidName(Seq<char>),
    DuplicateProject(Seq<char>),
    UnknownProject(Seq<char>),
    UnknownTag(Seq<char>),
    InternalError(Seq<char>),
}

impl View for AppError {
    type V = AppErrorV;

    open spec fn view(&self) -> AppErrorV {
        match self {
            AppError::BadJson(s) => AppErrorV::BadJson(s@),
            AppError::InvalidName(s) => AppErrorV::InvalidName(s@),
            AppError::DuplicateProject(s) => AppErrorV::DuplicateProject(s@),
            AppError::UnknownProject(s) => AppErrorV::UnknownProject(s@),
            AppError::UnknownTag(s) => AppErrorV::UnknownTag(s@),
            AppError::InternalError(s) => AppErrorV::InternalError(s@),
        }
    }
}

impl AppError {
    /// Turns an optional value into a result, supplying this error when
    /// the value is absent.
    pub fn require<T>(option: Option<T>, app_error: AppError) -> (r: Result<T, AppError>)
        ensures
            match option {
                Some(v) => r == Result::<T, AppError>::Ok(v),
                None => r == Result::<T, AppError>::Err(app_error),
            },
    {
        if let Some(value) = option {
            Result::Ok(value)
        } else {
            Result::Err(app_error)
        }
    }
}

} // verus!
