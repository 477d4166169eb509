//! The query driver: a path applied to a document, segment by segment.

use vstd::prelude::*;
use crate::document::{accepted, parse_document, written};
use crate::error::{Failure, SearchError};
use crate::extract::{segment_of, skipped, SearchRules};
use crate::grammar::{byte_offset, scan, Node};
use crate::matcher::{borrowed_as, match_rule, select};
use crate::order::{distinct_names, lemma_select_reordered, reordered, same_up_to_order};
use crate::parser::parse_search;
use crate::segment::Segment;
use crate::value::{Json, JsonValue};

verus! {

/// Where the nodes lead from `value`: each node that stands for a segment is
/// applied to what the segments before it selected, and the first failure
/// ends the walk.
pub open spec fn traverse(value: Json, s: Seq<char>, nodes: Seq<Node>) -> Result<Json, Failure>
    decreases nodes.len(),
{
    if nodes.len() == 0 {
        Ok(value)
    } else {
        match segment_of(s, nodes[0]) {
            None => traverse(value, s, nodes.skip(1)),
            Some(Err(failure)) => Err(failure),
            Some(Ok(segment)) => match select(segment, value) {
                Ok(next) => traverse(next, s, nodes.skip(1)),
                Err(failure) => Err(failure),
            },
        }
    }
}

/// The nodes that a walk from `value` leaves unlooked at: none where it
/// reaches the end, and those after the failing one where it fails.
pub open spec fn unvisited(value: Json, s: Seq<char>, nodes: Seq<Node>) -> Seq<Node>
    decreases nodes.len(),
{
    if nodes.len() == 0 {
        nodes
    } else {
        match segment_of(s, nodes[0]) {
            None => unvisited(value, s, nodes.skip(1)),
            Some(Err(_)) => nodes.skip(1),
            Some(Ok(segment)) => match select(segment, value) {
                Ok(next) => unvisited(next, s, nodes.skip(1)),
                Err(_) => nodes.skip(1),
            },
        }
    }
}

/// Where the segments lead from `value`: each is applied to what the
/// segments before it selected, and the first failure ends the walk.
pub open spec fn follow(value: Json, path: Seq<Segment>) -> Result<Json, Failure>
    decreases path.len(),
{
    if path.len() == 0 {
        Ok(value)
    } else {
        match select(path[0], value) {
            Ok(next) => follow(next, path.skip(1)),
            Err(failure) => Err(failure),
        }
    }
}

/// What a path selects in a document: the failure of the grammar where the
/// path is malformed, and else where its nodes lead from the root.
pub open spec fn answer(document: Json, path: Seq<char>) -> Result<Json, Failure> {
    match scan(path) {
        Ok(nodes) => traverse(document, path, nodes),
        Err(at) => Err(Failure::Parse { offset: byte_offset(path, at), input: path }),
    }
}

/// Whether an owned result stands for the modelled one.
pub open spec fn owned_as(got: Result<JsonValue, SearchError>, model: Result<Json, Failure>) -> bool {
    match model {
        Ok(value) => got matches Ok(found) && found@ == value,
        Err(failure) => got matches Err(error) && error@ == failure,
    }
}

/// Whether an owned result stands for the modelled one up to the order of
/// the members of objects: the same failure, or a value of which the
/// modelled one is a reordering.
pub open spec fn owned_up_to_order(got: Result<JsonValue, SearchError>, model: Result<Json, Failure>) -> bool {
    match model {
        Ok(value) => got matches Ok(found) && reordered(found@, value),
        Err(failure) => got matches Err(error) && error@ == failure,
    }
}

/// In a tree that names each member of an object once, a walk does not
/// depend on the order of the members: it fails alike, or leads to values
/// of which one is the other reordered, and leaves the same nodes.
pub proof fn lemma_walk_reordered(a: Json, b: Json, s: Seq<char>, nodes: Seq<Node>)
    requires
        reordered(a, b),
        distinct_names(b),
    ensures
        same_up_to_order(traverse(a, s, nodes), traverse(b, s, nodes)),
        unvisited(a, s, nodes) == unvisited(b, s, nodes),
    decreases nodes.len(),
{
    if nodes.len() > 0 {
        match segment_of(s, nodes[0]) {
            None => lemma_walk_reordered(a, b, s, nodes.skip(1)),
            Some(Err(_)) => {},
            Some(Ok(segment)) => {
                lemma_select_reordered(segment, a, b);
                match (select(segment, a), select(segment, b)) {
                    (Ok(x), Ok(y)) => lemma_walk_reordered(x, y, s, nodes.skip(1)),
                    _ => {},
                }
            },
        }
    }
}

/// In a tree that names each member of an object once, what a path selects
/// does not depend on the order of the members.
pub proof fn lemma_answer_reordered(a: Json, b: Json, path: Seq<char>)
    requires
        reordered(a, b),
        distinct_names(b),
    ensures
        same_up_to_order(answer(a, path), answer(b, path)),
{
    match scan(path) {
        Ok(nodes) => lemma_walk_reordered(a, b, path, nodes),
        Err(_) => {},
    }
}

/// Nodes that stand for no segment change nothing of a walk.
pub proof fn lemma_walk_skips(value: Json, s: Seq<char>, nodes: Seq<Node>)
    ensures
        skipped(s, nodes) <= nodes.len(),
        traverse(value, s, nodes) == traverse(value, s, nodes.skip(skipped(s, nodes) as int)),
        unvisited(value, s, nodes) == unvisited(value, s, nodes.skip(skipped(s, nodes) as int)),
    decreases nodes.len(),
{
    if nodes.len() == 0 || segment_of(s, nodes[0]) is Some {
        assert(nodes.skip(0) =~= nodes);
    } else {
        let rest = nodes.skip(1);
        lemma_walk_skips(value, s, rest);
        assert(rest.skip(skipped(s, rest) as int) =~= nodes.skip(skipped(s, nodes) as int));
    }
}

/// A walk fails in one of three ways: an index that is too large to be one,
/// a key or an index that is absent, or a value of the wrong kind.
pub proof fn lemma_walk_failures(value: Json, s: Seq<char>, nodes: Seq<Node>)
    ensures
        traverse(value, s, nodes) matches Err(failure) ==> failure is InvalidIndex || failure is NotFound
            || failure is TypeMismatch,
    decreases nodes.len(),
{
    if nodes.len() > 0 {
        match segment_of(s, nodes[0]) {
            None => lemma_walk_failures(value, s, nodes.skip(1)),
            Some(Err(_)) => {},
            Some(Ok(segment)) => match select(segment, value) {
                Ok(next) => lemma_walk_failures(next, s, nodes.skip(1)),
                Err(_) => {},
            },
        }
    }
}

/// What a path selects is never the failure of a document.
pub proof fn lemma_answer_failures(document: Json, path: Seq<char>)
    ensures
        answer(document, path) matches Err(failure) ==> !(failure is Document),
{
    match scan(path) {
        Ok(nodes) => lemma_walk_failures(document, path, nodes),
        Err(_) => {},
    }
}

/// Walks the document by the segments that are left in `rules`, and lends
/// the value that they lead to. The first failure ends the walk: the
/// segments after it stay in `rules`.
pub fn walk<'d>(document: &'d JsonValue, rules: &mut SearchRules) -> (found: Result<&'d JsonValue, SearchError>)
    ensures
        final(rules).0.wf(),
        final(rules).text() == old(rules).text(),
        borrowed_as(found, traverse(document@, old(rules).text(), old(rules).remaining())),
        final(rules).remaining() == unvisited(document@, old(rules).text(), old(rules).remaining()),
{
    let ghost s = rules.text();
    let ghost start = rules.remaining();
    let ghost root = document@;
    let mut current = document;
    proof {
        use_type_invariant(&rules.0);
        rules.0.lemma_reading();
    }
    loop
        invariant
            rules.0.wf(),
            s == old(rules).text(),
            start == old(rules).remaining(),
            root == document@,
            rules.text() == s,
            traverse(root, s, start) == traverse(current@, s, rules.remaining()),
            unvisited(root, s, start) == unvisited(current@, s, rules.remaining()),
        decreases rules.remaining().len(),
    {
        let ghost nodes = rules.remaining();
        let ghost k = skipped(s, nodes) as int;
        proof {
            rules.0.lemma_reading();
            lemma_walk_skips(current@, s, nodes);
            if k < nodes.len() {
                assert(nodes.skip(k).skip(1) =~= nodes.skip(k + 1));
                assert(nodes.skip(k)[0] == nodes[k]);
            }
        }
        let rule = match rules.next() {
            None => {
                return Ok(current);
            },
            Some(Err(error)) => {
                return Err(error);
            },
            Some(Ok(rule)) => rule,
        };
        current = match match_rule(&rule, current) {
            Ok(next) => next,
            Err(error) => {
                return Err(error);
            },
        };
    }
}

/// Reads the bytes as a JSON document and walks it by the segments that are
/// left in `rules`. The document is read first. Where the reader does not
/// accept it, and only there, the failure is that of the document, and the
/// segments are left as they were; else the result is an owned copy of what
/// the walk leads to, or the failure of the walk, from the root of the tree
/// that the text spells, up to the order of the members of objects. Where
/// no object of the text names a member twice, that order changes nothing:
/// the result is then the outcome of the walk through the tree as the text
/// spells it, and a value that is found is that tree's, up to the order of
/// its own members.
pub fn search(bytes: &mut Vec<u8>, rules: &mut SearchRules) -> (found: Result<JsonValue, SearchError>)
    ensures
        final(bytes)@.len() == old(bytes)@.len(),
        final(rules).0.wf(),
        final(rules).text() == old(rules).text(),
        found matches Err(SearchError::DocumentParse(_)) <==> !accepted(old(bytes)@),
        !accepted(old(bytes)@) ==> final(rules).remaining() == old(rules).remaining(),
        accepted(old(bytes)@) ==> exists|document: Json|
            {
                &&& #[trigger] reordered(document, written(old(bytes)@))
                &&& owned_as(found, traverse(document, old(rules).text(), old(rules).remaining()))
                &&& final(rules).remaining() == unvisited(
                    document,
                    old(rules).text(),
                    old(rules).remaining(),
                )
            },
        accepted(old(bytes)@) && distinct_names(written(old(bytes)@)) ==> {
            &&& owned_up_to_order(
                found,
                traverse(written(old(bytes)@), old(rules).text(), old(rules).remaining()),
            )
            &&& final(rules).remaining() == unvisited(
                written(old(bytes)@),
                old(rules).text(),
                old(rules).remaining(),
            )
        },
{
    let ghost text = bytes@;
    proof {
        use_type_invariant(&rules.0);
    }
    let document = match parse_document(bytes) {
        Ok(document) => document,
        Err(error) => {
            return Err(error);
        },
    };
    proof {
        lemma_walk_failures(document@, rules.text(), rules.remaining());
        if distinct_names(written(text)) {
            lemma_walk_reordered(document@, written(text), rules.text(), rules.remaining());
        }
    }
    match walk(&document, rules) {
        Ok(found) => Ok(found.clone()),
        Err(error) => Err(error),
    }
}

/// What the path selects in the document: an owned copy of the value that
/// its segments lead to, or the first failure, of the grammar or of the walk.
pub fn locate(rule: &str, document: &JsonValue) -> (found: Result<JsonValue, SearchError>)
    ensures
        owned_as(found, answer(document@, rule@)),
{
    let pairs = match parse_search(rule) {
        Ok(pairs) => pairs,
        Err(error) => {
            return Err(error);
        },
    };
    let mut rules = SearchRules(pairs);
    proof {
        assert(rules.remaining() =~= rules.0.nodes());
    }
    match walk(document, &mut rules) {
        Ok(found) => Ok(found.clone()),
        Err(error) => Err(error),
    }
}

/// One query from end to end: reads the bytes as a JSON document, then the
/// path, then walks. Where the reader does not accept the document, and only
/// there, the failure is that of the document, whatever the path; else the
/// result is what the path selects in the tree that the text spells, up to
/// the order of the members of objects. Where no object of the text names
/// a member twice, that order changes nothing: the result is then what the
/// path selects in the tree as the text spells it.
pub fn query(rule: &str, bytes: &mut Vec<u8>) -> (found: Result<JsonValue, SearchError>)
    ensures
        final(bytes)@.len() == old(bytes)@.len(),
        found matches Err(SearchError::DocumentParse(_)) <==> !accepted(old(bytes)@),
        accepted(old(bytes)@) ==> exists|document: Json|
            #[trigger] reordered(document, written(old(bytes)@)) && owned_as(
                found,
                answer(document, rule@),
            ),
        accepted(old(bytes)@) && distinct_names(written(old(bytes)@)) ==> owned_up_to_order(
            found,
            answer(written(old(bytes)@), rule@),
        ),
{
    let ghost text = bytes@;
    let document = match parse_document(bytes) {
        Ok(document) => document,
        Err(error) => {
            return Err(error);
        },
    };
    proof {
        lemma_answer_failures(document@, rule@);
        if distinct_names(written(text)) {
            lemma_answer_reordered(document@, written(text), rule@);
        }
    }
    locate(rule, &document)
}

} // verus!
