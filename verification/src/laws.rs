//! What holds of the grammar, the extractor and the matcher together.

use vstd::prelude::*;
use vstd::utf8::encode_utf8;
use crate::driver::{answer, follow, lemma_answer_reordered, traverse};
use crate::error::Failure;
use crate::extract::{expression, segment_of, segments, skipped};
use crate::grammar::{
    all_well_spanned, byte_offset, digits_end, index_run, is_digit, is_word_char, lemma_byte_offset,
    lemma_digits_end, lemma_index_run_stop, lemma_scan_nodes, lemma_segment_run_stop,
    lemma_word_end, scan, segment_run, well_spanned, word_end, Node, Rule,
};
use crate::matcher::select;
use crate::order::{distinct_names, reordered, same_up_to_order};
use crate::pairs::Pairs;
use crate::segment::Segment;
use crate::value::{Json, JsonKind};

verus! {

/// An index applied to anything but an array, and a key applied to anything
/// but an object, fail as a mismatch of types that names the kind asked for
/// and the kind found. They never select a value.
pub proof fn law_type_mismatch(segment: Segment, value: Json)
    ensures
        segment is Index && !(value is Array) ==> select(segment, value) == Err::<Json, Failure>(
            Failure::TypeMismatch { expected: JsonKind::Array, actual: value.kind() },
        ),
        segment is Key && !(value is Object) ==> select(segment, value) == Err::<Json, Failure>(
            Failure::TypeMismatch { expected: JsonKind::Object, actual: value.kind() },
        ),
{
}

/// Where every index of the nodes fits, a walk by the nodes is a fold of the
/// matcher over the segments that they stand for.
pub proof fn law_walk_by_segments(value: Json, s: Seq<char>, nodes: Seq<Node>)
    ensures
        segments(s, nodes) matches Ok(path) ==> traverse(value, s, nodes) == follow(value, path),
    decreases nodes.len(),
{
    if nodes.len() > 0 {
        let rest = nodes.skip(1);
        match segment_of(s, nodes[0]) {
            None => law_walk_by_segments(value, s, rest),
            Some(Err(_)) => {},
            Some(Ok(segment)) => {
                match segments(s, rest) {
                    Ok(more) => {
                        let path = seq![segment] + more;
                        assert(path[0] == segment);
                        assert(path.skip(1) =~= more);
                        match select(segment, value) {
                            Ok(next) => law_walk_by_segments(next, s, rest),
                            Err(_) => {},
                        }
                    },
                    Err(_) => {},
                }
            },
        }
    }
}

/// What a path selects is what its path expression leads to, where it has
/// one; and a path that the grammar refuses selects nothing in any document.
pub proof fn law_answer_by_expression(document: Json, path: Seq<char>)
    ensures
        expression(path) matches Ok(found) ==> answer(document, path) == follow(document, found),
        scan(path) matches Err(_) ==> answer(document, path) == Err::<Json, Failure>(
            expression(path)->Err_0,
        ),
{
    match scan(path) {
        Ok(nodes) => law_walk_by_segments(document, path, nodes),
        Err(_) => {},
    }
}

/// The order of the members of objects is immaterial to a query on a tree
/// that names each member of an object once: a path selects the same in
/// such a tree and in any reordering of it.
pub proof fn law_member_order_is_immaterial(a: Json, b: Json, path: Seq<char>)
    requires
        reordered(a, b),
        distinct_names(b),
    ensures
        same_up_to_order(answer(a, path), answer(b, path)),
{
    lemma_answer_reordered(a, b, path);
}

/// Two readings of one path, neither of them begun, lead to the same place
/// in every document: a reading keeps nothing but the path's own nodes.
pub proof fn law_reading_is_repeatable(first: Pairs, second: Pairs, document: Json)
    requires
        first.wf(),
        second.wf(),
        first.text() == second.text(),
        first.position() == 0,
        second.position() == 0,
    ensures
        first.nodes() == second.nodes(),
        traverse(document, first.text(), first.remaining()) == traverse(
            document,
            second.text(),
            second.remaining(),
        ),
{
    first.lemma_reading();
    second.lemma_reading();
}

/// A path begins with a key: the first node of its reading that stands for
/// a segment is a key, whether or not an index further on fits; and so its
/// path expression, where it has one, is not empty and begins with a key.
pub proof fn law_path_begins_with_key(path: Seq<char>)
    ensures
        scan(path) matches Ok(nodes) ==> skipped(path, nodes) < nodes.len() && nodes[skipped(
            path,
            nodes,
        ) as int].rule == Rule::ObjectKey,
        expression(path) matches Ok(found) ==> found.len() > 0 && found[0] is Key,
{
    if scan(path) is Ok {
        let from: int = if path.len() > 0 && path[0] == '.' {
            1
        } else {
            0
        };
        let run = segment_run(path, from)->Ok_0;
        let nodes = scan(path)->Ok_0;
        lemma_word_end(path, from);
        lemma_index_run_stop(path, word_end(path, from));
        assert(run.len() > 0 && run[0].rule == Rule::ObjectKey);
        assert(skipped(path, run) == 0);
        if from == 1 {
            assert(nodes.skip(1) =~= run);
            assert(segment_of(path, nodes[0]) is None);
            assert(skipped(path, nodes) == 1);
        }
        assert(segments(path, nodes) == segments(path, run));
    }
}

/// A path that the grammar refuses is refused at a position of the path:
/// at one of its characters or at its end, and so at a byte offset that is
/// at most the length of the path in bytes.
pub proof fn law_refused_within_the_path(path: Seq<char>)
    ensures
        scan(path) matches Err(at) ==> 0 <= at <= path.len() && byte_offset(path, at) <= encode_utf8(
            path,
        ).len(),
{
    if path.len() > 0 && path[0] == '.' {
        lemma_segment_run_stop(path, 1);
    } else {
        lemma_segment_run_stop(path, 0);
    }
    match scan(path) {
        Err(at) => lemma_byte_offset(path, at),
        Ok(_) => {},
    }
}

/// Where the stretch of text that a node accounts for begins: an index
/// accounts for its brackets too.
pub open spec fn stretch_start(node: Node) -> int {
    if node.rule == Rule::ArrayIndex {
        node.start - 1
    } else {
        node.start
    }
}

/// Where the stretch of text that a node accounts for ends.
pub open spec fn stretch_end(node: Node) -> int {
    if node.rule == Rule::ArrayIndex {
        node.end + 1
    } else {
        node.end
    }
}

/// Whether the stretches of the nodes lie end to end from `from` to `to`,
/// with nothing between them, and each index stands between brackets.
pub open spec fn end_to_end(s: Seq<char>, nodes: Seq<Node>, from: int, to: int) -> bool {
    &&& nodes.len() == 0 ==> from == to
    &&& nodes.len() > 0 ==> stretch_start(nodes[0]) == from && stretch_end(nodes.last()) == to
    &&& forall|i: int| 0 < i < nodes.len() ==> stretch_start(#[trigger] nodes[i]) == stretch_end(nodes[i - 1])
    &&& forall|i: int|
        0 <= i < nodes.len() && (#[trigger] nodes[i]).rule == Rule::ArrayIndex ==> 0 < nodes[i].start
            && nodes[i].end < s.len() && s[nodes[i].start - 1] == '[' && s[nodes[i].end] == ']'
}

/// Two runs of nodes that lie end to end, the second from where the first
/// ends, lie end to end together.
proof fn lemma_end_to_end(s: Seq<char>, first: Seq<Node>, second: Seq<Node>, from: int, mid: int, to: int)
    requires
        end_to_end(s, first, from, mid),
        end_to_end(s, second, mid, to),
    ensures
        end_to_end(s, first + second, from, to),
{
    let both = first + second;
    assert forall|i: int| 0 < i < both.len() implies stretch_start(#[trigger] both[i]) == stretch_end(
        both[i - 1],
    ) by {
        if i < first.len() {
            assert(both[i] == first[i] && both[i - 1] == first[i - 1]);
        } else if i == first.len() {
            assert(both[i] == second[0] && both[i - 1] == first.last());
        } else {
            assert(both[i] == second[i - first.len()] && both[i - 1] == second[i - first.len() - 1]);
        }
    }
    assert forall|i: int| 0 <= i < both.len() && (#[trigger] both[i]).rule == Rule::ArrayIndex implies 0
        < both[i].start && both[i].end < s.len() && s[both[i].start - 1] == '[' && s[both[i].end]
        == ']' by {
        if i < first.len() {
            assert(both[i] == first[i]);
        } else {
            assert(both[i] == second[i - first.len()]);
        }
    }
    if both.len() > 0 {
        if first.len() > 0 {
            assert(both[0] == first[0]);
        } else {
            assert(both[0] == second[0]);
        }
        if second.len() > 0 {
            assert(both.last() == second.last());
        } else {
            assert(both.last() == first.last());
        }
    }
}

/// The indices after a key lie end to end from the key to where they end.
proof fn lemma_index_run_end_to_end(s: Seq<char>, from: int)
    requires
        0 <= from <= s.len(),
    ensures
        index_run(s, from) matches Ok((nodes, stop)) ==> end_to_end(s, nodes, from, stop),
    decreases s.len() - from,
{
    if from < s.len() && s[from] == '[' {
        lemma_digits_end(s, from + 1);
        let end = digits_end(s, from + 1);
        if from + 1 < end < s.len() && s[end] == ']' {
            lemma_index_run_end_to_end(s, end + 1);
            match index_run(s, end + 1) {
                Ok((rest, stop)) => {
                    let node = Node { rule: Rule::ArrayIndex, start: from + 1, end };
                    assert(seq![node].last() == node);
                    lemma_end_to_end(s, seq![node], rest, from, end + 1, stop);
                },
                Err(_) => {},
            }
        }
    }
}

/// The nodes of a run of segments lie end to end from its start to the end
/// of the input, and the last of them is the end of the input.
proof fn lemma_segment_run_end_to_end(s: Seq<char>, from: int)
    requires
        0 <= from <= s.len(),
    ensures
        segment_run(s, from) matches Ok(nodes) ==> end_to_end(s, nodes, from, s.len() as int)
            && nodes.len() > 0 && nodes.last().rule == Rule::EndOfInput,
    decreases s.len() - from,
{
    lemma_word_end(s, from);
    let end = word_end(s, from);
    if end > from {
        lemma_index_run_stop(s, end);
        lemma_index_run_end_to_end(s, end);
        let key = Node { rule: Rule::ObjectKey, start: from, end };
        assert(seq![key].last() == key);
        match index_run(s, end) {
            Err(_) => {},
            Ok((indices, stop)) => {
                lemma_end_to_end(s, seq![key], indices, from, end, stop);
                if stop >= s.len() {
                    let last = Node { rule: Rule::EndOfInput, start: stop, end: stop };
                    assert(seq![last].last() == last);
                    lemma_end_to_end(s, seq![key] + indices, seq![last], from, stop, stop);
                    assert((seq![key] + indices + seq![last]).last() == last);
                } else if s[stop] == '.' {
                    let dot = Node { rule: Rule::Separator, start: stop, end: stop + 1 };
                    assert(seq![dot].last() == dot);
                    lemma_end_to_end(s, seq![key] + indices, seq![dot], from, stop, stop + 1);
                    lemma_segment_run_end_to_end(s, stop + 1);
                    match segment_run(s, stop + 1) {
                        Ok(rest) => {
                            lemma_end_to_end(
                                s,
                                seq![key] + indices + seq![dot],
                                rest,
                                from,
                                stop + 1,
                                s.len() as int,
                            );
                            assert((seq![key] + indices + seq![dot] + rest).last() == rest.last());
                        },
                        Err(_) => {},
                    }
                }
            },
        }
    }
}

/// A reading leaves no character of the path out: its nodes, each index
/// with its brackets, lie end to end from the first character to the last,
/// and the last node is the end of the input.
pub proof fn law_reading_covers_the_path(path: Seq<char>)
    ensures
        scan(path) matches Ok(nodes) ==> end_to_end(path, nodes, 0, path.len() as int) && nodes.len() > 0
            && nodes.last().rule == Rule::EndOfInput && all_well_spanned(path, nodes),
{
    lemma_scan_nodes(path);
    if path.len() > 0 && path[0] == '.' {
        lemma_segment_run_end_to_end(path, 1);
        match segment_run(path, 1) {
            Ok(rest) => {
                let dot = Node { rule: Rule::Separator, start: 0, end: 1 };
                assert(seq![dot].last() == dot);
                lemma_end_to_end(path, seq![dot], rest, 0, 1, path.len() as int);
                assert((seq![dot] + rest).last() == rest.last());
            },
            Err(_) => {},
        }
    } else {
        lemma_segment_run_end_to_end(path, 0);
    }
}

/// Whether the nodes follow one another in the text: each ends where the
/// next begins, or before.
pub open spec fn in_order(nodes: Seq<Node>) -> bool {
    forall|i: int, j: int|
        0 <= i < j < nodes.len() ==> (#[trigger] nodes[i]).end <= (#[trigger] nodes[j]).start
}

/// Whether the nodes lie between two positions of the text.
pub open spec fn all_between(nodes: Seq<Node>, from: int, to: int) -> bool {
    forall|i: int| 0 <= i < nodes.len() ==> from <= (#[trigger] nodes[i]).start && nodes[i].end <= to
}

/// Two runs of nodes in order, one before a position and one after it, are
/// in order together.
proof fn lemma_joined(first: Seq<Node>, second: Seq<Node>, from: int, mid: int, to: int)
    requires
        from <= mid <= to,
        in_order(first),
        in_order(second),
        all_between(first, from, mid),
        all_between(second, mid, to),
    ensures
        in_order(first + second),
        all_between(first + second, from, to),
{
    let both = first + second;
    assert forall|i: int| 0 <= i < both.len() implies from <= (#[trigger] both[i]).start && both[i].end
        <= to by {
        if i < first.len() {
            assert(both[i] == first[i]);
        } else {
            assert(both[i] == second[i - first.len()]);
        }
    }
    assert forall|i: int, j: int| 0 <= i < j < both.len() implies (#[trigger] both[i]).end <= (
    #[trigger] both[j]).start by {
        if j < first.len() {
            assert(both[i] == first[i] && both[j] == first[j]);
        } else if i < first.len() {
            assert(both[i] == first[i] && both[j] == second[j - first.len()]);
        } else {
            assert(both[i] == second[i - first.len()] && both[j] == second[j - first.len()]);
        }
    }
}

/// The indices after a key are in order, between the key and where they end.
proof fn lemma_index_run_in_order(s: Seq<char>, from: int)
    requires
        0 <= from <= s.len(),
    ensures
        index_run(s, from) matches Ok((nodes, stop)) ==> in_order(nodes) && all_between(nodes, from, stop),
    decreases s.len() - from,
{
    if from < s.len() && s[from] == '[' {
        lemma_digits_end(s, from + 1);
        let end = digits_end(s, from + 1);
        if from + 1 < end < s.len() && s[end] == ']' {
            lemma_index_run_in_order(s, end + 1);
            lemma_index_run_stop(s, end + 1);
            match index_run(s, end + 1) {
                Ok((rest, stop)) => {
                    let node = Node { rule: Rule::ArrayIndex, start: from + 1, end };
                    lemma_joined(seq![node], rest, from, end + 1, stop);
                },
                Err(_) => {},
            }
        }
    }
}

/// The nodes of a run of segments are in order, from its start on.
proof fn lemma_segment_run_in_order(s: Seq<char>, from: int)
    requires
        0 <= from <= s.len(),
    ensures
        segment_run(s, from) matches Ok(nodes) ==> in_order(nodes) && all_between(
            nodes,
            from,
            s.len() as int,
        ),
    decreases s.len() - from,
{
    lemma_word_end(s, from);
    let end = word_end(s, from);
    if end > from {
        lemma_index_run_stop(s, end);
        lemma_index_run_in_order(s, end);
        let key = Node { rule: Rule::ObjectKey, start: from, end };
        match index_run(s, end) {
            Err(_) => {},
            Ok((indices, stop)) => {
                lemma_joined(seq![key], indices, from, end, stop);
                if stop >= s.len() {
                    let last = Node { rule: Rule::EndOfInput, start: stop, end: stop };
                    lemma_joined(seq![key] + indices, seq![last], from, stop, stop);
                } else if s[stop] == '.' {
                    let dot = Node { rule: Rule::Separator, start: stop, end: stop + 1 };
                    lemma_joined(seq![key] + indices, seq![dot], from, stop, stop + 1);
                    lemma_segment_run_in_order(s, stop + 1);
                    match segment_run(s, stop + 1) {
                        Ok(rest) => lemma_joined(
                            seq![key] + indices + seq![dot],
                            rest,
                            from,
                            stop + 1,
                            s.len() as int,
                        ),
                        Err(_) => {},
                    }
                }
            },
        }
    }
}

/// The nodes of a reading come in the order of the text, and none reaches
/// into the next.
pub proof fn law_reading_in_order(path: Seq<char>)
    ensures
        scan(path) matches Ok(nodes) ==> in_order(nodes) && all_between(nodes, 0, path.len() as int),
{
    if path.len() > 0 && path[0] == '.' {
        lemma_segment_run_in_order(path, 1);
        match segment_run(path, 1) {
            Ok(rest) => lemma_joined(
                seq![Node { rule: Rule::Separator, start: 0, end: 1 }],
                rest,
                0,
                1,
                path.len() as int,
            ),
            Err(_) => {},
        }
    } else {
        lemma_segment_run_in_order(path, 0);
    }
}

/// A node, one character further on.
spec fn moved(node: Node) -> Node {
    Node { rule: node.rule, start: node.start + 1, end: node.end + 1 }
}

/// Each of the nodes, one character further on.
spec fn all_moved(nodes: Seq<Node>) -> Seq<Node> {
    nodes.map_values(|node: Node| moved(node))
}

/// A run of key characters moves with the text.
proof fn lemma_word_end_moved(c: char, s: Seq<char>, from: int)
    requires
        0 <= from <= s.len(),
    ensures
        word_end(seq![c] + s, from + 1) == word_end(s, from) + 1,
    decreases s.len() - from,
{
    let t = seq![c] + s;
    if from < s.len() {
        assert(t[from + 1] == s[from]);
        if is_word_char(s[from]) {
            lemma_word_end_moved(c, s, from + 1);
        }
    }
}

/// A run of digits moves with the text.
proof fn lemma_digits_end_moved(c: char, s: Seq<char>, from: int)
    requires
        0 <= from <= s.len(),
    ensures
        digits_end(seq![c] + s, from + 1) == digits_end(s, from) + 1,
    decreases s.len() - from,
{
    let t = seq![c] + s;
    if from < s.len() {
        assert(t[from + 1] == s[from]);
        if is_digit(s[from]) {
            lemma_digits_end_moved(c, s, from + 1);
        }
    }
}

/// The indices after a key move with the text.
proof fn lemma_index_run_moved(c: char, s: Seq<char>, from: int)
    requires
        0 <= from <= s.len(),
    ensures
        index_run(seq![c] + s, from + 1) == match index_run(s, from) {
            Ok((nodes, stop)) => Ok::<(Seq<Node>, int), int>((all_moved(nodes), stop + 1)),
            Err(at) => Err::<(Seq<Node>, int), int>(at + 1),
        },
    decreases s.len() - from,
{
    let t = seq![c] + s;
    if from < s.len() {
        assert(t[from + 1] == s[from]);
    }
    if from < s.len() && s[from] == '[' {
        lemma_digits_end(s, from + 1);
        lemma_digits_end_moved(c, s, from + 1);
        let end = digits_end(s, from + 1);
        if end < s.len() {
            assert(t[end + 1] == s[end]);
        }
        if from + 1 < end < s.len() && s[end] == ']' {
            lemma_index_run_moved(c, s, end + 1);
            match index_run(s, end + 1) {
                Ok((rest, _)) => {
                    let node = Node { rule: Rule::ArrayIndex, start: from + 1, end };
                    assert(all_moved(seq![node] + rest) =~= seq![moved(node)] + all_moved(rest));
                },
                Err(_) => {},
            }
        }
    } else {
        assert(all_moved(Seq::<Node>::empty()) =~= Seq::<Node>::empty());
    }
}

/// A run of segments moves with the text.
proof fn lemma_segment_run_moved(c: char, s: Seq<char>, from: int)
    requires
        0 <= from <= s.len(),
    ensures
        segment_run(seq![c] + s, from + 1) == match segment_run(s, from) {
            Ok(nodes) => Ok::<Seq<Node>, int>(all_moved(nodes)),
            Err(at) => Err::<Seq<Node>, int>(at + 1),
        },
    decreases s.len() - from,
{
    let t = seq![c] + s;
    lemma_word_end(s, from);
    lemma_word_end_moved(c, s, from);
    let end = word_end(s, from);
    if end > from {
        lemma_index_run_stop(s, end);
        lemma_index_run_moved(c, s, end);
        let key = Node { rule: Rule::ObjectKey, start: from, end };
        match index_run(s, end) {
            Err(_) => {},
            Ok((indices, stop)) => {
                if stop < s.len() {
                    assert(t[stop + 1] == s[stop]);
                }
                if stop >= s.len() {
                    let last = Node { rule: Rule::EndOfInput, start: stop, end: stop };
                    assert(all_moved(seq![key] + indices + seq![last]) =~= seq![moved(key)] + all_moved(
                        indices,
                    ) + seq![moved(last)]);
                } else if s[stop] == '.' {
                    lemma_segment_run_moved(c, s, stop + 1);
                    let dot = Node { rule: Rule::Separator, start: stop, end: stop + 1 };
                    match segment_run(s, stop + 1) {
                        Ok(rest) => {
                            assert(all_moved(seq![key] + indices + seq![dot] + rest) =~= seq![moved(key)]
                                + all_moved(indices) + seq![moved(dot)] + all_moved(rest));
                        },
                        Err(_) => {},
                    }
                }
            },
        }
    }
}

/// A node that has moved with the text stands for the same segment.
proof fn lemma_segment_of_moved(c: char, s: Seq<char>, node: Node)
    requires
        well_spanned(s, node),
    ensures
        segment_of(seq![c] + s, moved(node)) == segment_of(s, node),
{
    let t = seq![c] + s;
    assert(t.subrange(node.start + 1, node.end + 1) =~= s.subrange(node.start, node.end));
}

/// Nodes that have moved with the text stand for the same segments.
proof fn lemma_segments_moved(c: char, s: Seq<char>, nodes: Seq<Node>)
    requires
        all_well_spanned(s, nodes),
    ensures
        segments(seq![c] + s, all_moved(nodes)) == segments(s, nodes),
    decreases nodes.len(),
{
    if nodes.len() > 0 {
        lemma_segment_of_moved(c, s, nodes[0]);
        assert(all_moved(nodes).skip(1) =~= all_moved(nodes.skip(1)));
        lemma_segments_moved(c, s, nodes.skip(1));
    }
}

/// Nodes that have moved with the text lead to the same place.
proof fn lemma_traverse_moved(value: Json, c: char, s: Seq<char>, nodes: Seq<Node>)
    requires
        all_well_spanned(s, nodes),
    ensures
        traverse(value, seq![c] + s, all_moved(nodes)) == traverse(value, s, nodes),
    decreases nodes.len(),
{
    if nodes.len() > 0 {
        lemma_segment_of_moved(c, s, nodes[0]);
        assert(all_moved(nodes).skip(1) =~= all_moved(nodes.skip(1)));
        match segment_of(s, nodes[0]) {
            None => lemma_traverse_moved(value, c, s, nodes.skip(1)),
            Some(Err(_)) => {},
            Some(Ok(segment)) => match select(segment, value) {
                Ok(next) => lemma_traverse_moved(next, c, s, nodes.skip(1)),
                Err(_) => {},
            },
        }
    }
}

/// A dot before a path changes nothing: where the grammar accepts a path
/// that does not begin with a dot, the path with a dot before it is accepted
/// too, denotes the same path expression, and selects the same in every
/// document.
pub proof fn law_leading_dot(path: Seq<char>, document: Json)
    requires
        scan(path) is Ok,
        path.len() > 0 ==> path[0] != '.',
    ensures
        scan(seq!['.'] + path) is Ok,
        expression(seq!['.'] + path) == expression(path),
        answer(document, seq!['.'] + path) == answer(document, path),
{
    let dotted = seq!['.'] + path;
    let nodes = scan(path)->Ok_0;
    let dot = Node { rule: Rule::Separator, start: 0, end: 1 };
    assert(dotted[0] == '.');
    lemma_segment_run_moved('.', path, 0);
    lemma_scan_nodes(path);
    let read = seq![dot] + all_moved(nodes);
    assert(scan(dotted) == Ok::<Seq<Node>, int>(read));
    assert(read.skip(1) =~= all_moved(nodes));
    assert(segment_of(dotted, read[0]) is None);
    lemma_segments_moved('.', path, nodes);
    lemma_traverse_moved(document, '.', path, nodes);
}

} // verus!
