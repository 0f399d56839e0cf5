//! Structured errors of the authoring operations.
use vstd::prelude::*;

use crate::schema::{copy_opt_string, opt_view};
use crate::text::copy_string;

verus! {

/// What went wrong, in a form callers can match on.
#[derive(Debug, Clone, Copy, PartialEq, Eq, Structural)]
pub enum AuthoringErrorCode {
    InvalidRoot,
    UnsafePath,
    NotFound,
    Conflict,
    Malformed,
    StaleContent,
    AmbiguousSymbol,
    Io,
}

/// An authoring failure: its code, a message, and the project path it is
/// about, when there is one.
#[derive(Debug, Clone, PartialEq, Eq)]
pub struct AuthoringError {
    pub code: AuthoringErrorCode,
    pub message: String,
    pub path: Option<String>,
}

/// The mathematical model of an [`AuthoringError`].
pub struct AuthoringErrorView {
    pub code: AuthoringErrorCode,
    pub message: Seq<char>,
    pub path: Option<Seq<char>>,
}

impl View for AuthoringError {
    type V = AuthoringErrorView;

    open spec fn view(&self) -> AuthoringErrorView {
        AuthoringErrorView { code: self.code, message: self.message@, path: opt_view(self.path) }
    }
}

impl AuthoringError {
    /// A field-for-field copy.
    pub fn copied(&self) -> (r: Self)
        ensures
            r@ == self@,
    {
        AuthoringError {
            code: self.code,
            message: copy_string(&self.message),
            path: copy_opt_string(&self.path),
        }
    }
}

pub type AuthoringResult<T> = Result<T, AuthoringError>;

/// An error that names no path.
pub fn error(code: AuthoringErrorCode, message: String) -> (e: AuthoringError)
    ensures
        e@ == (AuthoringErrorView { code, message: message@, path: None }),
{
    AuthoringError { code, message, path: None }
}

/// An error about the project path `path`.
pub fn path_error(code: AuthoringErrorCode, path: String, message: String) -> (e: AuthoringError)
    ensures
        e@ == (AuthoringErrorView { code, message: message@, path: Some(path@) }),
{
    AuthoringError { code, message, path: Some(path) }
}

} // verus!
