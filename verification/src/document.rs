//! Reading a JSON document. The reading itself is the work of `simd-json`;
//! what comes back is turned into a [`JsonValue`], which the rest of the
//! library walks.

use vstd::prelude::*;
use simd_json::{OwnedValue, StaticNode};
use crate::error::SearchError;
use crate::order::{lemma_reordered_twice, reordered};
use crate::value::{Json, JsonValue};

verus! {

/// `simd_json::OwnedValue`: a JSON tree as `simd-json` builds it. Nothing of
/// its inside is known here.
#[verifier::external_type_specification]
#[verifier::external_body]
pub struct ExOwnedValue(OwnedValue);

/// `simd_json::Error`: why `simd-json` refused a document.
#[verifier::external_type_specification]
#[verifier::external_body]
pub struct ExDocumentError(simd_json::Error);

/// What `simd_json::to_owned_value` makes of the bytes: nothing where it
/// refuses them, and else the tree that it builds, each object's members in
/// the order of the text.
pub uninterp spec fn document_of(bytes: Seq<u8>) -> Option<Json>;

/// Whether the reader takes the bytes for a JSON document.
pub open spec fn accepted(bytes: Seq<u8>) -> bool {
    document_of(bytes) is Some
}

/// The tree that the text of an accepted document spells.
pub open spec fn written(bytes: Seq<u8>) -> Json {
    document_of(bytes)->Some_0
}

/// The tree that a value of `simd-json` holds. Such a value keeps no order
/// of an object's members; the name takes them in one order, of which
/// nothing is claimed.
pub uninterp spec fn held(value: OwnedValue) -> Json;

/// `simd_json::to_owned_value`: reads the bytes as one JSON document. It
/// rewrites the bytes in place where it takes the escapes out of strings, so
/// only their number is sure to stay. Whether it succeeds depends on the
/// bytes alone. The value that it builds holds every scalar, every element
/// at its position and every member of the text, and no other; only the
/// order of an object's members is not that of the text, since a larger
/// object is kept in a hash map whose hasher is seeded anew in every
/// process. Nothing is claimed of the error.
#[verifier::external_body]
fn to_owned_value(bytes: &mut Vec<u8>) -> (read: Result<OwnedValue, simd_json::Error>)
    ensures
        final(bytes)@.len() == old(bytes)@.len(),
        read is Ok <==> document_of(old(bytes)@) is Some,
        read matches Ok(value) ==> document_of(old(bytes)@) matches Some(tree) && reordered(
            held(value),
            tree,
        ),
{
    simd_json::to_owned_value(bytes)
}

/// Turns a tree of `simd-json` into a tree of this library, node for node:
/// each scalar into the variant of the same kind, a floating-point number by
/// `f64::to_bits`, an array element for element, and an object member for
/// member in the order in which `simd-json` hands them out. So the result
/// is what the value holds, up to the order of the members of objects.
#[verifier::external_body]
fn from_owned(value: &OwnedValue) -> (tree: JsonValue)
    ensures
        reordered(tree@, held(*value)),
{
    match value {
        OwnedValue::Static(StaticNode::Null) => JsonValue::Null,
        OwnedValue::Static(StaticNode::Bool(b)) => JsonValue::Bool(*b),
        OwnedValue::Static(StaticNode::I64(i)) => JsonValue::Int(*i),
        OwnedValue::Static(StaticNode::U64(u)) => JsonValue::UInt(*u),
        OwnedValue::Static(StaticNode::F64(f)) => JsonValue::Float(f.to_bits()),
        OwnedValue::String(s) => JsonValue::String(s.clone()),
        OwnedValue::Array(a) => JsonValue::Array(a.iter().map(from_owned).collect()),
        OwnedValue::Object(o) => JsonValue::Object(
            o.iter().map(|(k, v)| (k.clone(), from_owned(v))).collect(),
        ),
    }
}

/// Reads the bytes as one JSON document. The bytes may be rewritten; their
/// number stays. Bytes that the reader does not accept are refused with the
/// reader's own account of them, and there is no other failure. The tree
/// is the one that the text spells, up to the order of the members of
/// objects.
pub fn parse_document(bytes: &mut Vec<u8>) -> (parsed: Result<JsonValue, SearchError>)
    ensures
        final(bytes)@.len() == old(bytes)@.len(),
        parsed is Ok <==> accepted(old(bytes)@),
        parsed matches Ok(tree) ==> reordered(tree@, written(old(bytes)@)),
        parsed matches Err(error) ==> error is DocumentParse,
{
    let ghost text = bytes@;
    match to_owned_value(bytes) {
        Ok(value) => {
            let tree = from_owned(&value);
            proof {
                lemma_reordered_twice(tree@, held(value), written(text));
            }
            Ok(tree)
        },
        Err(error) => Err(SearchError::DocumentParse(error.to_string())),
    }
}

} // verus!
