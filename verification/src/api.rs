//! Errors of the collection server and their HTTP statuses.
use crate::codec::SnapshotError;
use crate::error::VexError;
use crate::text::joined;
use vstd::prelude::*;
use vstd::string::StringExecFns;

verus! {

/// Why the server refused a request.
#[derive(Clone, Debug, PartialEq, Eq)]
pub enum ApiError {
    /// The request is malformed or beyond a limit.
    BadRequest(String),
    /// What the request names does not exist.
    NotFound(String),
    /// What the request makes exists already.
    Conflict(String),
    /// The server takes no writes.
    ReadOnly,
    /// The server failed.
    Internal(String),
}

/// A refusal as mathematics.
#[verifier::ext_equal]
pub enum Refusal {
    BadRequest(Seq<char>),
    NotFound(Seq<char>),
    Conflict(Seq<char>),
    ReadOnly,
    Internal(Seq<char>),
}

impl View for ApiError {
    type V = Refusal;

    open spec fn view(&self) -> Refusal {
        match self {
            ApiError::BadRequest(message) => Refusal::BadRequest(message@),
            ApiError::NotFound(message) => Refusal::NotFound(message@),
            ApiError::Conflict(message) => Refusal::Conflict(message@),
            ApiError::ReadOnly => Refusal::ReadOnly,
            ApiError::Internal(message) => Refusal::Internal(message@),
        }
    }
}

impl Refusal {
    /// The HTTP status of the refusal.
    pub open spec fn status(self) -> u16 {
        match self {
            Refusal::BadRequest(_) => 400,
            Refusal::NotFound(_) => 404,
            Refusal::Conflict(_) => 409,
            Refusal::ReadOnly => 403,
            Refusal::Internal(_) => 500,
        }
    }

    /// The message of the refusal.
    pub open spec fn text(self) -> Seq<char> {
        match self {
            Refusal::BadRequest(message) => message,
            Refusal::NotFound(message) => message,
            Refusal::Conflict(message) => message,
            Refusal::ReadOnly => "server is running in read-only mode"@,
            Refusal::Internal(message) => "internal error: "@ + message,
        }
    }
}

/// What an error of an index is answered with: a conflict for an id that is in
/// use, a bad request for everything else.
pub open spec fn index_refusal(e: VexError) -> Refusal {
    match e {
        VexError::DuplicateId(_) => Refusal::Conflict(e.text()),
        _ => Refusal::BadRequest(e.text()),
    }
}

impl ApiError {
    /// The HTTP status of the error.
    pub fn status(&self) -> (r: u16)
        ensures
            r == self@.status(),
    {
        match self {
            ApiError::BadRequest(_) => 400,
            ApiError::NotFound(_) => 404,
            ApiError::Conflict(_) => 409,
            ApiError::ReadOnly => 403,
            ApiError::Internal(_) => 500,
        }
    }

    /// The message of the error, for people to read.
    pub fn message(&self) -> (r: String)
        ensures
            r@ == self@.text(),
    {
        match self {
            ApiError::BadRequest(message) => message.clone(),
            ApiError::NotFound(message) => message.clone(),
            ApiError::Conflict(message) => message.clone(),
            ApiError::ReadOnly => String::from_str("server is running in read-only mode"),
            ApiError::Internal(message) => joined("internal error: ", message.as_str()),
        }
    }

    /// What an error of an index is answered with.
    pub fn from_index(e: VexError) -> (r: ApiError)
        ensures
            r@ == index_refusal(e),
    {
        match e {
            VexError::DuplicateId(_) => ApiError::Conflict(e.message()),
            _ => ApiError::BadRequest(e.message()),
        }
    }

    /// What an error of a snapshot is answered with.
    pub fn from_snapshot(e: SnapshotError) -> (r: ApiError)
        ensures
            r@ == Refusal::Internal(e.text()),
    {
        ApiError::Internal(e.message())
    }
}

} // verus!
