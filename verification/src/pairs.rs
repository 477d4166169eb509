//! The reading of a path as it comes out of the grammar: a sequence of
//! nodes over the path's text, handed out one at a time.

use vstd::prelude::*;
use crate::grammar::{scan, Node, Rule};

verus! {

/// One node of a reading: a kind, and a span of the path's text.
#[derive(Clone, Copy, Debug)]
pub struct Pair<'a> {
    input: &'a str,
    rule: Rule,
    start: usize,
    end: usize,
}

impl<'a> View for Pair<'a> {
    type V = Node;

    closed spec fn view(&self) -> Node {
        Node { rule: self.rule, start: self.start as int, end: self.end as int }
    }
}

impl<'a> Pair<'a> {
    /// The whole path that this node is a part of.
    pub closed spec fn text(&self) -> Seq<char> {
        self.input@
    }

    /// The span lies within the path.
    #[verifier::type_invariant]
    pub closed spec fn wf(&self) -> bool {
        self.start <= self.end <= self.input@.len()
    }

    pub(crate) fn new(input: &'a str, rule: Rule, start: usize, end: usize) -> (pair: Self)
        requires
            start <= end <= input@.len(),
        ensures
            pair@ == (Node { rule, start: start as int, end: end as int }),
            pair.text() == input@,
            pair.wf(),
    {
        Pair { input, rule, start, end }
    }

    /// The kind of this node.
    pub fn as_rule(&self) -> (rule: Rule)
        ensures
            rule == self@.rule,
    {
        self.rule
    }

    /// The text that this node spans.
    pub fn as_str(&self) -> (span: &'a str)
        ensures
            span@ == self.text().subrange(self@.start, self@.end),
    {
        proof {
            use_type_invariant(self);
        }
        self.input.substring_char(self.start, self.end)
    }
}

/// The models of a sequence of nodes, in order.
pub open spec fn models<'a>(pairs: Seq<Pair<'a>>) -> Seq<Node> {
    pairs.map_values(|pair: Pair<'a>| pair@)
}

/// Whether every node of `pairs` is a part of the path `text`.
pub open spec fn all_over<'a>(pairs: Seq<Pair<'a>>, text: Seq<char>) -> bool {
    forall|i: int| 0 <= i < pairs.len() ==> (#[trigger] pairs[i]).text() == text
}

/// The reading of a path, with a cursor: the nodes before the cursor have
/// been handed out, the others are still to come.
#[derive(Debug)]
pub struct Pairs<'a> {
    input: &'a str,
    nodes: Vec<Pair<'a>>,
    pos: usize,
}

impl<'a> Pairs<'a> {
    /// The path that was read.
    pub closed spec fn text(&self) -> Seq<char> {
        self.input@
    }

    /// All the nodes of the reading, in the order of the text.
    pub closed spec fn nodes(&self) -> Seq<Node> {
        models(self.nodes@)
    }

    /// How many nodes have been handed out.
    pub closed spec fn position(&self) -> nat {
        self.pos as nat
    }

    /// The nodes that are still to come.
    pub open spec fn remaining(&self) -> Seq<Node> {
        self.nodes().skip(self.position() as int)
    }

    /// The nodes are the grammar's reading of the path, and the cursor is
    /// within them.
    #[verifier::type_invariant]
    pub closed spec fn wf(&self) -> bool {
        &&& scan(self.input@) == Ok::<Seq<Node>, int>(models(self.nodes@))
        &&& all_over(self.nodes@, self.input@)
        &&& self.pos <= self.nodes.len()
    }

    pub(crate) fn new(input: &'a str, nodes: Vec<Pair<'a>>) -> (pairs: Self)
        requires
            scan(input@) == Ok::<Seq<Node>, int>(models(nodes@)),
            all_over(nodes@, input@),
        ensures
            pairs.wf(),
            pairs.text() == input@,
            pairs.nodes() == models(nodes@),
            pairs.position() == 0,
    {
        Pairs { input, nodes, pos: 0 }
    }

    /// What well-formedness says in terms of the public model.
    pub proof fn lemma_reading(&self)
        requires
            self.wf(),
        ensures
            scan(self.text()) == Ok::<Seq<Node>, int>(self.nodes()),
            self.position() <= self.nodes().len(),
    {
    }

    /// Hands out the next node of the reading, if one is left.
    pub fn next(&mut self) -> (next: Option<Pair<'a>>)
        ensures
            final(self).wf(),
            final(self).text() == old(self).text(),
            final(self).nodes() == old(self).nodes(),
            old(self).position() <= old(self).nodes().len(),
            match next {
                Some(pair) => {
                    &&& old(self).position() < old(self).nodes().len()
                    &&& pair@ == old(self).nodes()[old(self).position() as int]
                    &&& pair.text() == old(self).text()
                    &&& final(self).position() == old(self).position() + 1
                },
                None => {
                    &&& old(self).position() == old(self).nodes().len()
                    &&& final(self).position() == old(self).position()
                },
            },
    {
        proof {
            use_type_invariant(&*self);
        }
        if self.pos < self.nodes.len() {
            let pair = self.nodes[self.pos];
            self.pos = self.pos + 1;
            Some(pair)
        } else {
            None
        }
    }
}

} // verus!
