//! The error taxonomy of the engine.

use vstd::prelude::*;

verus! {

/// What a request can fail with, as seen at the boundary.
#[derive(Debug, Clone, PartialEq, Eq)]
pub enum ServiceError {
    /// The request is at fault; the message is shown to the user.
    BadRequest(String),
    /// The caller's identity could not be verified.
    Unauthorized,
    /// The store or something unexpected failed.
    InternalServerError,
}

impl ServiceError {
    /// The message of a `BadRequest`, and the empty text otherwise.
    pub open spec fn message(self) -> Seq<char> {
        match self {
            ServiceError::BadRequest(m) => m@,
            _ => Seq::empty(),
        }
    }

    /// The HTTP status that the error is answered with.
    pub fn status_code(&self) -> (code: u16)
        ensures
            code == match *self {
                ServiceError::BadRequest(_) => 400u16,
                ServiceError::Unauthorized => 401u16,
                ServiceError::InternalServerError => 500u16,
            },
    {
        match self {
            ServiceError::BadRequest(_) => 400,
            ServiceError::Unauthorized => 401,
            ServiceError::InternalServerError => 500,
        }
    }
}

/// What went wrong while a request was read.
#[derive(Debug, Clone, Copy, PartialEq, Eq, Structural)]
pub enum ParseErrorKind {
    /// The text does not go on as the grammar asks.
    UnexpectedChar,
    /// A task line names no title.
    EmptyTitle,
    /// A quoted expression is opened and never closed.
    UnterminatedQuote,
    /// A number is too large to be held.
    BadNumber,
    /// A regular expression cannot be compiled.
    BadRegex,
}

/// A failure to read a request: what went wrong, and at which character of
/// the washed text.
#[derive(Debug, Clone, Copy, PartialEq, Eq, Structural)]
pub struct ParseError {
    pub kind: ParseErrorKind,
    pub position: usize,
}

/// The message that a request with a syntax error is answered with.
pub open spec fn syntax_message() -> Seq<char> {
    "there seems to be a syntax error."@
}

impl ParseError {
    /// The error as the boundary shows it: a bad request.
    pub fn to_service(&self) -> (e: ServiceError)
        ensures
            e is BadRequest,
            e.message() == syntax_message(),
    {
        ServiceError::BadRequest("there seems to be a syntax error.".to_string())
    }
}

} // verus!
