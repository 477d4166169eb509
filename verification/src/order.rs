//! Trees that differ only in the order of the members of their objects.

use vstd::prelude::*;
use crate::error::Failure;
use crate::matcher::{member, select};
use crate::segment::Segment;
use crate::value::Json;

verus! {

/// Whether `order` names each of the positions `0..count` once, and `back`
/// leads from each position to where `order` names it.
pub open spec fn is_arrangement(order: Seq<int>, back: Seq<int>, count: nat) -> bool {
    &&& order.len() == count
    &&& back.len() == count
    &&& forall|i: int| 0 <= i < count ==> 0 <= #[trigger] order[i] < count && back[order[i]] == i
    &&& forall|j: int| 0 <= j < count ==> 0 <= #[trigger] back[j] < count && order[back[j]] == j
}

/// Whether `a` is `b` with the members of each object in some order: the
/// same scalars, the same elements at the same positions of each array, and
/// in each object the same members, each once, whatever their order.
pub open spec fn reordered(a: Json, b: Json) -> bool
    decreases a,
{
    match a {
        Json::Array(items) => b matches Json::Array(others) && items.len() == others.len() && forall|i: int|
            0 <= i < items.len() ==> reordered(#[trigger] items[i], others[i]),
        Json::Object(members) => b matches Json::Object(others) && others.len() == members.len()
            && exists|order: Seq<int>, back: Seq<int>|
            {
                &&& #[trigger] is_arrangement(order, back, members.len())
                &&& forall|i: int|
                    0 <= i < members.len() ==> (#[trigger] members[i]).0 == others[order[i]].0
                        && reordered(members[i].1, others[order[i]].1)
            },
        _ => a == b,
    }
}

/// The arrangement by which the members of one object are those of another.
pub open spec fn arrangement_of(members: Seq<(Seq<char>, Json)>, others: Seq<(Seq<char>, Json)>) -> (
    Seq<int>,
    Seq<int>,
) {
    choose|found: (Seq<int>, Seq<int>)|
        {
            &&& #[trigger] is_arrangement(found.0, found.1, members.len())
            &&& forall|i: int|
                0 <= i < members.len() ==> (#[trigger] members[i]).0 == others[found.0[i]].0
                    && reordered(members[i].1, others[found.0[i]].1)
        }
}

/// Two objects of which one is the other reordered have an arrangement.
pub proof fn lemma_arrangement(members: Seq<(Seq<char>, Json)>, others: Seq<(Seq<char>, Json)>)
    requires
        reordered(Json::Object(members), Json::Object(others)),
    ensures
        others.len() == members.len(),
        is_arrangement(arrangement_of(members, others).0, arrangement_of(members, others).1, members.len()),
        forall|i: int|
            0 <= i < members.len() ==> (#[trigger] members[i]).0 == others[arrangement_of(
                members,
                others,
            ).0[i]].0 && reordered(members[i].1, others[arrangement_of(members, others).0[i]].1),
{
    let (order, back) = choose|order: Seq<int>, back: Seq<int>|
        {
            &&& #[trigger] is_arrangement(order, back, members.len())
            &&& forall|i: int|
                0 <= i < members.len() ==> (#[trigger] members[i]).0 == others[order[i]].0
                    && reordered(members[i].1, others[order[i]].1)
        };
    let found = (order, back);
    assert(is_arrangement(found.0, found.1, members.len()));
}

/// A reordering of a reordering is a reordering.
pub proof fn lemma_reordered_twice(a: Json, b: Json, c: Json)
    requires
        reordered(a, b),
        reordered(b, c),
    ensures
        reordered(a, c),
    decreases a,
{
    match a {
        Json::Array(items) => {
            let middle = b->Array_0;
            let others = c->Array_0;
            assert forall|i: int| 0 <= i < items.len() implies reordered(#[trigger] items[i], others[i]) by {
                assert(reordered(items[i], middle[i]));
                assert(reordered(middle[i], others[i]));
                lemma_reordered_twice(items[i], middle[i], others[i]);
            }
        },
        Json::Object(members) => {
            let middle = b->Object_0;
            let others = c->Object_0;
            lemma_arrangement(members, middle);
            lemma_arrangement(middle, others);
            let (first, first_back) = arrangement_of(members, middle);
            let (second, second_back) = arrangement_of(middle, others);
            let both = Seq::new(members.len(), |i: int| second[first[i]]);
            let both_back = Seq::new(members.len(), |j: int| first_back[second_back[j]]);
            assert forall|i: int| 0 <= i < members.len() implies (#[trigger] members[i]).0
                == others[both[i]].0 && reordered(members[i].1, others[both[i]].1) by {
                let j = first[i];
                assert(members[i].0 == middle[j].0 && reordered(members[i].1, middle[j].1));
                assert(middle[j].0 == others[second[j]].0 && reordered(middle[j].1, others[second[j]].1));
                lemma_reordered_twice(members[i].1, middle[j].1, others[second[j]].1);
            }
            assert(is_arrangement(both, both_back, members.len())) by {
                assert forall|i: int| 0 <= i < members.len() implies 0 <= #[trigger] both[i]
                    < members.len() && both_back[both[i]] == i by {
                    let j = first[i];
                    assert(0 <= second[j] < members.len() && second_back[second[j]] == j);
                }
                assert forall|j: int| 0 <= j < members.len() implies 0 <= #[trigger] both_back[j]
                    < members.len() && both[both_back[j]] == j by {
                    let k = second_back[j];
                    assert(0 <= first_back[k] < members.len() && first[first_back[k]] == k);
                }
            }
        },
        _ => {},
    }
}

/// Whether no object of the tree has two members of one name.
pub open spec fn distinct_names(value: Json) -> bool
    decreases value,
{
    match value {
        Json::Array(items) => forall|i: int| 0 <= i < items.len() ==> distinct_names(#[trigger] items[i]),
        Json::Object(members) => {
            &&& forall|i: int, j: int|
                0 <= i < j < members.len() ==> (#[trigger] members[i]).0 != (#[trigger] members[j]).0
            &&& forall|i: int| 0 <= i < members.len() ==> distinct_names((#[trigger] members[i]).1)
        },
        _ => true,
    }
}

/// Whether two outcomes are the same up to the order of the members of
/// objects: the same failure, or values of which one is the other reordered.
pub open spec fn same_up_to_order(a: Result<Json, Failure>, b: Result<Json, Failure>) -> bool {
    match (a, b) {
        (Ok(x), Ok(y)) => reordered(x, y),
        (Err(e), Err(f)) => e == f,
        _ => false,
    }
}

/// A lookup finds the first member of the name.
pub proof fn lemma_member_found(members: Seq<(Seq<char>, Json)>, key: Seq<char>, at: int)
    requires
        0 <= at < members.len(),
        members[at].0 == key,
        forall|i: int| 0 <= i < at ==> (#[trigger] members[i]).0 != key,
    ensures
        member(members, key) == Some(members[at].1),
    decreases at,
{
    if at > 0 {
        let rest = members.skip(1);
        assert(members[0].0 != key);
        assert(rest[at - 1] == members[at]);
        assert forall|i: int| 0 <= i < at - 1 implies (#[trigger] rest[i]).0 != key by {
            assert(rest[i] == members[i + 1]);
        }
        lemma_member_found(rest, key, at - 1);
    }
}

/// A lookup finds nothing where no member has the name.
pub proof fn lemma_member_absent(members: Seq<(Seq<char>, Json)>, key: Seq<char>)
    requires
        forall|i: int| 0 <= i < members.len() ==> (#[trigger] members[i]).0 != key,
    ensures
        member(members, key) is None,
    decreases members.len(),
{
    if members.len() > 0 {
        let rest = members.skip(1);
        assert(members[0].0 != key);
        assert forall|i: int| 0 <= i < rest.len() implies (#[trigger] rest[i]).0 != key by {
            assert(rest[i] == members[i + 1]);
        }
        lemma_member_absent(rest, key);
    }
}

/// Reordered values are of one kind.
pub proof fn lemma_kind_reordered(a: Json, b: Json)
    requires
        reordered(a, b),
    ensures
        a.kind() == b.kind(),
{
}

/// In an object that names each member once, a lookup does not depend on
/// the order of the members.
pub proof fn lemma_member_reordered(
    members: Seq<(Seq<char>, Json)>,
    others: Seq<(Seq<char>, Json)>,
    key: Seq<char>,
)
    requires
        reordered(Json::Object(members), Json::Object(others)),
        distinct_names(Json::Object(others)),
    ensures
        match (member(members, key), member(others, key)) {
            (Some(x), Some(y)) => reordered(x, y) && distinct_names(y),
            (None, None) => true,
            _ => false,
        },
{
    lemma_arrangement(members, others);
    let (order, back) = arrangement_of(members, others);
    if exists|j: int| 0 <= j < others.len() && (#[trigger] others[j]).0 == key {
        let j = choose|j: int| 0 <= j < others.len() && (#[trigger] others[j]).0 == key;
        let i = back[j];
        assert(order[i] == j);
        assert(members[i].0 == others[order[i]].0);
        assert forall|k: int| 0 <= k < i implies (#[trigger] members[k]).0 != key by {
            assert(members[k].0 == others[order[k]].0);
            if members[k].0 == key {
                let l = order[k];
                assert(back[l] == k);
                if l < j {
                    assert(others[l].0 != others[j].0);
                } else if j < l {
                    assert(others[j].0 != others[l].0);
                }
            }
        }
        assert forall|k: int| 0 <= k < j implies (#[trigger] others[k]).0 != key by {
            assert(others[k].0 != others[j].0);
        }
        lemma_member_found(members, key, i);
        lemma_member_found(others, key, j);
        assert(distinct_names(others[j].1));
    } else {
        assert forall|k: int| 0 <= k < members.len() implies (#[trigger] members[k]).0 != key by {
            assert(members[k].0 == others[order[k]].0);
            assert(0 <= order[k] < others.len());
        }
        lemma_member_absent(members, key);
        lemma_member_absent(others, key);
    }
}

/// In a tree that names each member of an object once, what a segment
/// selects does not depend on the order of the members.
pub proof fn lemma_select_reordered(segment: Segment, a: Json, b: Json)
    requires
        reordered(a, b),
        distinct_names(b),
    ensures
        same_up_to_order(select(segment, a), select(segment, b)),
        select(segment, b) matches Ok(found) ==> distinct_names(found),
{
    lemma_kind_reordered(a, b);
    match segment {
        Segment::Key(key) => {
            if a is Object {
                lemma_member_reordered(a->Object_0, b->Object_0, key);
            }
        },
        Segment::Index(index) => {
            if a is Array {
                let items = a->Array_0;
                let others = b->Array_0;
                if index < items.len() {
                    assert(reordered(items[index as int], others[index as int]));
                    assert(distinct_names(others[index as int]));
                }
            }
        },
    }
}

} // verus!
