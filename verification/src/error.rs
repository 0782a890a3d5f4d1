//! The engine's error type.

use vstd::prelude::*;

verus! {

/// Everything that can go wrong in the engine.
#[derive(Debug, Clone, PartialEq, Eq)]
pub enum Error {
    /// The text given is not a usable MEGA link.
    InvalidLink(String),
    /// Any other failure, with a human-readable description.
    Other(String),
    /// Real-Debrid refused a request.
    RealDebrid { status: u16, code: Option<i64>, message: String },
    /// An HTTP transport failure.
    Http(String),
    /// A database failure.
    Database(String),
}

/// The mathematical model of an [`Error`]: texts as character sequences.
pub enum ErrorView {
    InvalidLink(Seq<char>),
    Other(Seq<char>),
    RealDebrid { status: u16, code: Option<i64>, message: Seq<char> },
    Http(Seq<char>),
    Database(Seq<char>),
}

impl View for Error {
    type V = ErrorView;

    open spec fn view(&self) -> ErrorView {
        match self {
            Error::InvalidLink(m) => ErrorView::InvalidLink(m@),
            Error::Other(m) => ErrorView::Other(m@),
            Error::RealDebrid { status, code, message } => ErrorView::RealDebrid {
                status: *status,
                code: *code,
                message: message@,
            },
            Error::Http(m) => ErrorView::Http(m@),
            Error::Database(m) => ErrorView::Database(m@),
        }
    }
}

} // verus!
