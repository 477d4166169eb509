//! The tree matcher: one segment applied to one value.

use vstd::prelude::*;
use crate::error::{Failure, SearchError};
use crate::segment::{SearchValue, Segment};
use crate::value::{lemma_items_model, lemma_members_model, members_model, Json, JsonKind, JsonValue};

verus! {

/// The value of the first member named `key`, if there is one.
pub open spec fn member(members: Seq<(Seq<char>, Json)>, key: Seq<char>) -> Option<Json>
    decreases members.len(),
{
    if members.len() == 0 {
        None
    } else if members[0].0 == key {
        Some(members[0].1)
    } else {
        member(members.skip(1), key)
    }
}

/// What one segment selects in one value.
pub open spec fn select(segment: Segment, value: Json) -> Result<Json, Failure> {
    match segment {
        Segment::Key(key) => match value {
            Json::Object(members) => match member(members, key) {
                Some(found) => Ok(found),
                None => Err(Failure::NotFound),
            },
            _ => Err(Failure::TypeMismatch { expected: JsonKind::Object, actual: value.kind() }),
        },
        Segment::Index(index) => match value {
            Json::Array(items) => if index < items.len() {
                Ok(items[index as int])
            } else {
                Err(Failure::NotFound)
            },
            _ => Err(Failure::TypeMismatch { expected: JsonKind::Array, actual: value.kind() }),
        },
    }
}

/// Whether a borrowed result stands for the modelled one.
pub open spec fn borrowed_as(got: Result<&JsonValue, SearchError>, model: Result<Json, Failure>) -> bool {
    match model {
        Ok(value) => got matches Ok(found) && found@ == value,
        Err(failure) => got matches Err(error) && error@ == failure,
    }
}

/// Looks a member up by name: the first one of that name.
pub fn find_member<'a>(members: &'a Vec<(String, JsonValue)>, key: &String) -> (found: Option<&'a JsonValue>)
    ensures
        match member(members_model(members@), key@) {
            Some(value) => found matches Some(at) && at@ == value,
            None => found is None,
        },
{
    let ghost all = members_model(members@);
    proof {
        lemma_members_model(members@);
        assert(all.skip(0) =~= all);
    }
    let mut i: usize = 0;
    while i < members.len()
        invariant
            i <= members.len(),
            all == members_model(members@),
            all.len() == members.len(),
            forall|j: int| 0 <= j < all.len() ==> #[trigger] all[j] == (members@[j].0@, members@[j].1@),
            member(all, key@) == member(all.skip(i as int), key@),
        decreases members.len() - i,
    {
        if members[i].0 == *key {
            return Some(&members[i].1);
        }
        proof {
            assert(all.skip(i as int).skip(1) =~= all.skip(i + 1));
        }
        i += 1;
    }
    None
}

/// Applies one segment to one value: the member or the element that it
/// selects, borrowed from the value, or the reason why there is none.
pub fn match_rule<'a>(rule: &SearchValue, value: &'a JsonValue) -> (found: Result<&'a JsonValue, SearchError>)
    ensures
        borrowed_as(found, select(rule@, value@)),
{
    proof {
        match value {
            JsonValue::Array(items) => lemma_items_model(items@),
            _ => {},
        }
    }
    match rule {
        SearchValue::ArrayIndex(index) => match value {
            JsonValue::Array(items) => {
                if *index < items.len() {
                    Ok(&items[*index])
                } else {
                    Err(SearchError::NotFound)
                }
            },
            _ => Err(SearchError::TypeMismatch { expected: JsonKind::Array, actual: value.kind() }),
        },
        SearchValue::ObjectKey(key) => match value {
            JsonValue::Object(members) => match find_member(members, key) {
                Some(found) => Ok(found),
                None => Err(SearchError::NotFound),
            },
            _ => Err(SearchError::TypeMismatch { expected: JsonKind::Object, actual: value.kind() }),
        },
    }
}

} // verus!
