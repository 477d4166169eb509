//! The segment extractor: the reading of a path, presented as the segments
//! that it stands for, one per call.

use vstd::prelude::*;
use crate::error::{Failure, SearchError};
use crate::grammar::{
    all_well_spanned, byte_offset, is_digit, lemma_scan_nodes, scan, well_spanned, Node, Rule,
};
use crate::pairs::Pairs;
use crate::parser::{characters, parse_search};
use crate::segment::{SearchValue, Segment};

verus! {

/// The number that a digit stands for.
pub open spec fn digit_value(c: char) -> nat {
    (c as int - '0' as int) as nat
}

/// The number that a run of decimal digits stands for.
pub open spec fn decimal(digits: Seq<char>) -> nat
    decreases digits.len(),
{
    if digits.len() == 0 {
        0
    } else {
        10 * decimal(digits.drop_last()) + digit_value(digits.last())
    }
}

/// The segment that a node stands for: a key node for its name, an index
/// node for the number that its digits spell, which has to fit a `usize`,
/// and any other node for nothing.
pub open spec fn segment_of(s: Seq<char>, node: Node) -> Option<Result<Segment, Failure>> {
    match node.rule {
        Rule::ObjectKey => Some(Ok(Segment::Key(s.subrange(node.start, node.end)))),
        Rule::ArrayIndex => {
            let index = decimal(s.subrange(node.start, node.end));
            if index <= usize::MAX {
                Some(Ok(Segment::Index(index)))
            } else {
                Some(Err(Failure::InvalidIndex))
            }
        },
        Rule::Separator | Rule::EndOfInput => None,
    }
}

/// How many nodes at the front of `nodes` stand for no segment.
pub open spec fn skipped(s: Seq<char>, nodes: Seq<Node>) -> nat
    decreases nodes.len(),
{
    if nodes.len() == 0 || segment_of(s, nodes[0]) is Some {
        0
    } else {
        1 + skipped(s, nodes.skip(1))
    }
}

/// The segments that the nodes stand for, in order; or the failure of the
/// first index that is too large to be one.
pub open spec fn segments(s: Seq<char>, nodes: Seq<Node>) -> Result<Seq<Segment>, Failure>
    decreases nodes.len(),
{
    if nodes.len() == 0 {
        Ok(Seq::empty())
    } else {
        match segment_of(s, nodes[0]) {
            None => segments(s, nodes.skip(1)),
            Some(Err(failure)) => Err(failure),
            Some(Ok(segment)) => match segments(s, nodes.skip(1)) {
                Ok(rest) => Ok(seq![segment] + rest),
                Err(failure) => Err(failure),
            },
        }
    }
}

/// The path expression that a path denotes: the segments of its reading,
/// or the reason why it denotes none.
pub open spec fn expression(path: Seq<char>) -> Result<Seq<Segment>, Failure> {
    match scan(path) {
        Ok(nodes) => segments(path, nodes),
        Err(at) => Err(Failure::Parse { offset: byte_offset(path, at), input: path }),
    }
}

/// The models of a sequence of segments, in order.
pub open spec fn segment_models(values: Seq<SearchValue>) -> Seq<Segment> {
    values.map_values(|value: SearchValue| value@)
}

/// `rest` with the segments `done` before it.
spec fn after_segments(done: Seq<Segment>, rest: Result<Seq<Segment>, Failure>) -> Result<
    Seq<Segment>,
    Failure,
> {
    match rest {
        Ok(more) => Ok(done + more),
        Err(failure) => Err(failure),
    }
}

/// Nodes that stand for no segment add nothing to the segments.
pub proof fn lemma_segments_skip(s: Seq<char>, nodes: Seq<Node>)
    ensures
        skipped(s, nodes) <= nodes.len(),
        segments(s, nodes) == segments(s, nodes.skip(skipped(s, nodes) as int)),
    decreases nodes.len(),
{
    if nodes.len() == 0 || segment_of(s, nodes[0]) is Some {
        assert(nodes.skip(0) =~= nodes);
    } else {
        let rest = nodes.skip(1);
        lemma_segments_skip(s, rest);
        assert(rest.skip(skipped(s, rest) as int) =~= nodes.skip(skipped(s, nodes) as int));
    }
}

/// Whether an extracted item stands for the modelled one.
pub open spec fn extracted_as(got: Result<SearchValue, SearchError>, model: Result<Segment, Failure>) -> bool {
    match model {
        Ok(segment) => got matches Ok(value) && value@ == segment,
        Err(failure) => got matches Err(error) && error@ == failure,
    }
}

/// A number is at least the number that any of its leading digits spell.
proof fn lemma_decimal_prefix(digits: Seq<char>, k: int)
    requires
        0 <= k <= digits.len(),
    ensures
        decimal(digits.take(k)) <= decimal(digits),
    decreases digits.len() - k,
{
    if k < digits.len() {
        lemma_decimal_prefix(digits, k + 1);
        assert(digits.take(k + 1).drop_last() =~= digits.take(k));
    } else {
        assert(digits.take(k) =~= digits);
    }
}

/// The number that the digits of `text` spell, where it fits a `usize`.
fn to_index(text: &str) -> (index: Option<usize>)
    requires
        forall|i: int| 0 <= i < text@.len() ==> is_digit(#[trigger] text@[i]),
    ensures
        match index {
            Some(value) => value == decimal(text@),
            None => decimal(text@) > usize::MAX,
        },
{
    let digits = characters(text);
    let mut value: usize = 0;
    let mut i: usize = 0;
    while i < digits.len()
        invariant
            digits@ == text@,
            i <= digits.len(),
            forall|j: int| 0 <= j < digits@.len() ==> is_digit(#[trigger] digits@[j]),
            value == decimal(digits@.take(i as int)),
        decreases digits.len() - i,
    {
        let c = digits[i];
        assert(is_digit(digits@[i as int]));
        let d: usize = (c as u32 - '0' as u32) as usize;
        proof {
            assert(digits@.take(i + 1).drop_last() =~= digits@.take(i as int));
            assert(d == digit_value(c));
            lemma_decimal_prefix(digits@, i + 1);
        }
        let scaled = match value.checked_mul(10) {
            Some(scaled) => scaled,
            None => {
                return None;
            },
        };
        value = match scaled.checked_add(d) {
            Some(sum) => sum,
            None => {
                return None;
            },
        };
        i += 1;
    }
    proof {
        assert(digits@.take(i as int) =~= digits@);
    }
    Some(value)
}

/// When the first `k` nodes stand for no segment and the next one, if there
/// is one, does, then `k` nodes are skipped.
proof fn lemma_skipped(s: Seq<char>, nodes: Seq<Node>, k: int)
    requires
        0 <= k <= nodes.len(),
        forall|j: int| 0 <= j < k ==> segment_of(s, #[trigger] nodes[j]) is None,
        k < nodes.len() ==> segment_of(s, nodes[k]) is Some,
    ensures
        skipped(s, nodes) == k,
    decreases k,
{
    if k > 0 {
        assert(segment_of(s, nodes[0]) is None);
        let rest = nodes.skip(1);
        assert forall|j: int| 0 <= j < k - 1 implies segment_of(s, #[trigger] rest[j]) is None by {
            assert(rest[j] == nodes[j + 1]);
        }
        lemma_skipped(s, rest, k - 1);
    }
}

/// The segments of a path, handed out one per call. What has been handed
/// out is gone: to walk the path again, read it again.
#[derive(Debug)]
pub struct SearchRules<'a>(pub Pairs<'a>);

impl<'a> SearchRules<'a> {
    /// The path that the segments are taken from.
    pub open spec fn text(&self) -> Seq<char> {
        self.0.text()
    }

    /// The nodes that have not been looked at yet.
    pub open spec fn remaining(&self) -> Seq<Node> {
        self.0.remaining()
    }

    /// Hands out the next segment. Nodes that stand for no segment are
    /// passed over, wherever they are; the segments end only where the nodes
    /// end. An index whose digits spell a number beyond `usize::MAX` is
    /// handed out as a failure.
    pub fn next(&mut self) -> (next: Option<Result<SearchValue, SearchError>>)
        ensures
            final(self).0.wf(),
            final(self).text() == old(self).text(),
            ({
                let nodes = old(self).remaining();
                let k = skipped(old(self).text(), nodes) as int;
                if k < nodes.len() {
                    &&& next matches Some(item)
                    &&& segment_of(old(self).text(), nodes[k]) matches Some(model)
                    &&& extracted_as(item, model)
                    &&& final(self).remaining() == nodes.skip(k + 1)
                } else {
                    &&& next is None
                    &&& final(self).remaining() == Seq::<Node>::empty()
                }
            }),
    {
        proof {
            use_type_invariant(&self.0);
            self.0.lemma_reading();
            lemma_scan_nodes(self.0.text());
        }
        let ghost text = self.0.text();
        let ghost all = self.0.nodes();
        let ghost first = self.0.position() as int;
        let ghost nodes = self.0.remaining();
        loop
            invariant
                self.0.wf(),
                text == old(self).text(),
                nodes == old(self).remaining(),
                self.0.text() == text,
                self.0.nodes() == all,
                all_well_spanned(text, all),
                nodes == all.skip(first),
                0 <= first <= self.0.position() <= all.len(),
                forall|j: int| first <= j < self.0.position() ==> segment_of(text, #[trigger] all[j]) is None,
            decreases all.len() - self.0.position(),
        {
            let ghost at = self.0.position() as int;
            let pair = match self.0.next() {
                Some(pair) => pair,
                None => {
                    proof {
                        lemma_skipped(text, nodes, nodes.len() as int);
                        assert(self.0.remaining() =~= Seq::<Node>::empty());
                    }
                    return None;
                },
            };
            proof {
                assert(well_spanned(text, all[at]));
                if segment_of(text, all[at]) is Some {
                    lemma_skipped(text, nodes, at - first);
                    assert(self.0.remaining() =~= nodes.skip(at - first + 1));
                }
            }
            match pair.as_rule() {
                Rule::ObjectKey => {
                    return Some(Ok(SearchValue::ObjectKey(pair.as_str().to_owned())));
                },
                Rule::ArrayIndex => {
                    return Some(
                        match to_index(pair.as_str()) {
                            Some(index) => Ok(SearchValue::ArrayIndex(index)),
                            None => Err(SearchError::InvalidIndex),
                        },
                    );
                },
                Rule::Separator => {},
                Rule::EndOfInput => {},
            }
        }
    }
}

/// Reads a path and extracts all its segments: the path expression.
pub fn path_expression(rule: &str) -> (read: Result<Vec<SearchValue>, SearchError>)
    ensures
        match expression(rule@) {
            Ok(expected) => read matches Ok(values) && segment_models(values@) == expected,
            Err(failure) => read matches Err(error) && error@ == failure,
        },
{
    let pairs = match parse_search(rule) {
        Ok(pairs) => pairs,
        Err(error) => {
            return Err(error);
        },
    };
    let ghost s = rule@;
    let ghost all = pairs.nodes();
    let mut rules = SearchRules(pairs);
    let mut values: Vec<SearchValue> = Vec::new();
    proof {
        assert(rules.remaining() =~= all);
        assert(segment_models(values@) =~= Seq::<Segment>::empty());
        match segments(s, all) {
            Ok(more) => assert(segment_models(values@) + more =~= more),
            Err(_) => {},
        }
    }
    loop
        invariant
            rules.0.wf(),
            rules.text() == s,
            s == rule@,
            scan(s) == Ok::<Seq<Node>, int>(all),
            segments(s, all) == after_segments(segment_models(values@), segments(s, rules.remaining())),
        decreases rules.remaining().len(),
    {
        let ghost nodes = rules.remaining();
        let ghost k = skipped(s, nodes) as int;
        let ghost done = segment_models(values@);
        proof {
            rules.0.lemma_reading();
            lemma_segments_skip(s, nodes);
            if k < nodes.len() {
                assert(nodes.skip(k).skip(1) =~= nodes.skip(k + 1));
                assert(nodes.skip(k)[0] == nodes[k]);
            }
        }
        let value = match rules.next() {
            None => {
                proof {
                    assert(done + Seq::<Segment>::empty() =~= done);
                }
                return Ok(values);
            },
            Some(Err(error)) => {
                return Err(error);
            },
            Some(Ok(value)) => value,
        };
        let ghost segment = value@;
        values.push(value);
        proof {
            assert(segment_models(values@) =~= done.push(segment));
            match segments(s, nodes.skip(k + 1)) {
                Ok(more) => assert(done.push(segment) + more =~= done + (seq![segment] + more)),
                Err(_) => {},
            }
        }
    }
}

} // verus!
