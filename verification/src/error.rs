//! Errors of the index operations.
use crate::text::{decimal, joined, with_number};
use crate::vector::VectorId;
use vstd::prelude::*;
use vstd::string::StringExecFns;

verus! {

/// Why an index refused a request.
#[derive(Clone, Copy, Debug, PartialEq, Eq, Structural)]
pub enum VexError {
    /// A vector or a query does not have the dimension of the index.
    DimensionMismatch { expected: usize, actual: usize },
    /// The id is already in use by a live vector.
    DuplicateId(VectorId),
    /// A search asked for zero results.
    InvalidK,
}

/// The outcome of an index operation.
pub type Result<T> = std::result::Result<T, VexError>;

impl VexError {
    /// The message of the error.
    pub open spec fn text(&self) -> Seq<char> {
        match self {
            VexError::DimensionMismatch { expected, actual } => "dimension mismatch: expected "@
                + decimal(*expected as nat) + (", got "@ + decimal(*actual as nat)),
            VexError::DuplicateId(id) => "duplicate id: VectorId("@ + decimal(id.0 as nat) + ")"@,
            VexError::InvalidK => "invalid k: must be > 0"@,
        }
    }

    /// The message of the error, for people to read.
    pub fn message(&self) -> (r: String)
        ensures
            r@ == self.text(),
    {
        match self {
            VexError::DimensionMismatch { expected, actual } => {
                let head = with_number("dimension mismatch: expected ", *expected as u64);
                let tail = with_number(", got ", *actual as u64);
                joined(head.as_str(), tail.as_str())
            },
            VexError::DuplicateId(id) => {
                let head = with_number("duplicate id: VectorId(", id.0);
                joined(head.as_str(), ")")
            },
            VexError::InvalidK => String::from_str("invalid k: must be > 0"),
        }
    }
}

} // verus!
