//! Path segments: the atomic steps of a path expression.

use vstd::prelude::*;

verus! {

/// The model of a path segment.
pub enum Segment {
    /// Selects the member of an object that has this name.
    Key(Seq<char>),
    /// Selects the element of an array at this zero-based position.
    Index(nat),
}

/// One step of a path expression.
#[derive(Debug, PartialEq, Eq)]
pub enum SearchValue {
    ArrayIndex(usize),
    ObjectKey(String),
}

impl View for SearchValue {
    type V = Segment;

    open spec fn view(&self) -> Segment {
        match self {
            SearchValue::ArrayIndex(i) => Segment::Index(*i as nat),
            SearchValue::ObjectKey(k) => Segment::Key(k@),
        }
    }
}

} // verus!
