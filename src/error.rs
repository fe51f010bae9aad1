use vstd::prelude::*;

verus! {

/// Failures of the server core. Each maps to the integer server error code that
/// is reported to the client.
#[derive(Clone, Copy, Debug, PartialEq, Eq, Structural)]
pub enum LsError {
    /// A URI that is not a `file://` path.
    InvalidUri,
    /// An operation needs a syntax tree and the document has none.
    NoSyntaxTree,
    /// A lookup in the document index or the project found nothing.
    NotFound,
    /// The project descriptor is malformed.
    McpParse,
    /// An edit range that is reversed or reaches past the end of the text.
    InvalidRange,
    /// Edited bytes that are not UTF-8.
    InvalidUtf8,
    /// A byte offset that is not the start of a character.
    PositionOutOfRange,
}

pub open spec fn error_code(e: LsError) -> i64 {
    match e {
        LsError::InvalidUri => 1,
        LsError::NoSyntaxTree => 3,
        LsError::NotFound => 4,
        LsError::McpParse => 5,
        LsError::InvalidRange => 6,
        LsError::InvalidUtf8 => 6,
        LsError::PositionOutOfRange => 9,
    }
}

impl LsError {
    /// The server error code reported to the client.
    pub fn code(&self) -> (r: i64)
        ensures
            r == error_code(*self),
    {
        match self {
            LsError::InvalidUri => 1,
            LsError::NoSyntaxTree => 3,
            LsError::NotFound => 4,
            LsError::McpParse => 5,
            LsError::InvalidRange => 6,
            LsError::InvalidUtf8 => 6,
            LsError::PositionOutOfRange => 9,
        }
    }
}

} // verus!
