//! Error taxonomy of the session core.
//!
//! Collaborator failures are caught at the command boundary and reported
//! without unwinding the session; a command issued outside its legal mode is
//! expected control flow and never surfaces here.

use vstd::prelude::*;

verus! {

/// What can go wrong while executing one command.
#[derive(Clone, Copy, Debug, PartialEq, Eq, Structural)]
pub enum AppError {
    /// An add/remove target does not exist; no state is mutated.
    PathNotFound,
    /// A selected file could not be read while building its fragment.
    ReadFailure,
    /// The tokenizer backend failed to initialise or encode; the previously
    /// cached token count is retained.
    TokenizerUnavailable,
    /// The clipboard write failed; document and count are still committed.
    ClipboardFailure,
}

impl AppError {
    /// A short description for display.
    pub fn message(&self) -> (r: String)
        ensures
            *self == AppError::PathNotFound ==> r@ == "path not found"@,
            *self == AppError::ReadFailure ==> r@ == "file could not be read"@,
            *self == AppError::TokenizerUnavailable ==> r@ == "tokenizer unavailable"@,
            *self == AppError::ClipboardFailure ==> r@ == "clipboard write failed"@,
    {
        match self {
            AppError::PathNotFound => String::from_str("path not found"),
            AppError::ReadFailure => String::from_str("file could not be read"),
            AppError::TokenizerUnavailable => String::from_str("tokenizer unavailable"),
            AppError::ClipboardFailure => String::from_str("clipboard write failed"),
        }
    }
}

} // verus!
