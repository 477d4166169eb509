//! The ways in which a query fails.

use vstd::prelude::*;
use crate::value::JsonKind;

verus! {

/// The model of a failed query.
pub enum Failure {
    /// The document is not well-formed JSON; the text is the parser's own account.
    Document(Seq<char>),
    /// The path is not a well-formed expression: the byte offset at which the
    /// grammar could not go on, and the path as it was given.
    Parse { offset: nat, input: Seq<char> },
    /// The digits of a bracketed index name a number beyond `usize::MAX`.
    InvalidIndex,
    /// The key or the index is absent from the value it was applied to.
    NotFound,
    /// The segment asks for one kind of container and the value is of another kind.
    TypeMismatch { expected: JsonKind, actual: JsonKind },
}

/// Why a query failed. Every failure ends the query at once: nothing is
/// retried and no partial result is handed out.
#[derive(Debug, PartialEq, Eq)]
pub enum SearchError {
    DocumentParse(String),
    Parse { offset: usize, input: String },
    InvalidIndex,
    NotFound,
    TypeMismatch { expected: JsonKind, actual: JsonKind },
}

impl View for SearchError {
    type V = Failure;

    open spec fn view(&self) -> Failure {
        match self {
            SearchError::DocumentParse(text) => Failure::Document(text@),
            SearchError::Parse { offset, input } => Failure::Parse {
                offset: *offset as nat,
                input: input@,
            },
            SearchError::InvalidIndex => Failure::InvalidIndex,
            SearchError::NotFound => Failure::NotFound,
            SearchError::TypeMismatch { expected, actual } => Failure::TypeMismatch {
                expected: *expected,
                actual: *actual,
            },
        }
    }
}

} // verus!
