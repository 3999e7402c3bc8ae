//! The error taxonomy a resolution can surface.

use vstd::prelude::*;

verus! {

/// Why a resolution failed.
#[derive(Debug)]
pub enum Error {
    /// No back-end matched and no static override exists.
    NameNotFound,
    /// A transport failure, or the resolver is shut down.
    TemporaryError(String),
    /// The name string could not be parsed.
    InvalidName(String, String),
}

/// The ghost value of an [`Error`].
pub enum ErrorView {
    NameNotFound,
    TemporaryError(Seq<char>),
    InvalidName(Seq<char>, Seq<char>),
}

impl View for Error {
    type V = ErrorView;

    open spec fn view(&self) -> ErrorView {
        match *self {
            Error::NameNotFound => ErrorView::NameNotFound,
            Error::TemporaryError(ref s) => ErrorView::TemporaryError(s@),
            Error::InvalidName(ref n, ref r) => ErrorView::InvalidName(n@, r@),
        }
    }
}

impl Error {
    /// The error a request gets when the engine is no longer running.
    pub fn resolver_down() -> (r: Error)
        ensures
            r@ == ErrorView::TemporaryError("Resolver is down"@),
    {
        Error::TemporaryError(String::from_str("Resolver is down"))
    }
}

} // verus!
