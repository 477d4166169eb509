//! Locating a value inside a JSON document with a compact path expression
//! such as `.a.b.c` or `.a1[0].b1`.
//!
//! A path is read by the grammar ([`grammar`], [`parser`]) into a flat
//! sequence of nodes ([`pairs`]). The extractor ([`extract`]) presents the
//! nodes as segments, a key or an index each ([`segment`]). The matcher
//! ([`matcher`]) applies one segment to one value ([`value`]), and the
//! driver ([`driver`]) applies them all in turn, from the root of the
//! document ([`document`]) to the value that the path selects or to the
//! first failure ([`error`]). A document that is read is the tree that its
//! text spells, up to the order of the members of objects ([`order`]). What
//! holds of these together is proved in [`laws`].

pub mod document;
pub mod driver;
pub mod error;
pub mod extract;
pub mod grammar;
pub mod laws;
pub mod matcher;
pub mod order;
pub mod pairs;
pub mod parser;
pub mod segment;
pub mod value;

pub use crate::document::parse_document;
pub use crate::driver::{locate, query, search, walk};
pub use crate::error::SearchError;
pub use crate::extract::{path_expression, SearchRules};
pub use crate::grammar::Rule;
pub use crate::matcher::match_rule;
pub use crate::pairs::{Pair, Pairs};
pub use crate::parser::parse_search;
pub use crate::segment::SearchValue;
pub use crate::value::{JsonKind, JsonValue};
