//! The path grammar.
//!
//! ```text
//! search  := "."? segment ( "." segment )*
//! segment := key index*
//! key     := word_char+
//! index   := "[" digit+ "]"
//! ```
//!
//! Every repetition takes as much as it can and nothing is tried twice, so a
//! path has at most one reading. The reading is a flat sequence of nodes: one
//! for each key, each index and each dot, and one for the end of the input.

use vstd::prelude::*;
use vstd::utf8::encode_utf8;

verus! {

/// What `char::is_alphanumeric` answers: whether a character has the Unicode
/// property Alphabetic or is in one of the general categories Nd, Nl and No.
pub uninterp spec fn alphanumeric(c: char) -> bool;

/// An ASCII letter or an ASCII decimal digit.
pub open spec fn is_ascii_alphanumeric(c: char) -> bool {
    ('a' <= c && c <= 'z') || ('A' <= c && c <= 'Z') || ('0' <= c && c <= '9')
}

/// `char::is_alphanumeric` depends on the character alone, and its answer
/// is `alphanumeric`. Among the ASCII characters it holds of the letters
/// and the decimal digits and of no other: they are the ASCII characters
/// that Unicode calls alphabetic or numeric.
pub assume_specification[ char::is_alphanumeric ](c: char) -> (yes: bool)
    ensures
        yes == alphanumeric(c),
        c <= '\u{7f}' ==> yes == is_ascii_alphanumeric(c),
;

/// A character of a key: a letter or a digit of any script, or an
/// underscore. Of the ASCII characters these are the letters, the decimal
/// digits and the underscore.
pub open spec fn is_word_char(c: char) -> bool {
    c == '_' || if c <= '\u{7f}' {
        is_ascii_alphanumeric(c)
    } else {
        alphanumeric(c)
    }
}

/// A character of an index: an ASCII decimal digit.
pub open spec fn is_digit(c: char) -> bool {
    '0' <= c && c <= '9'
}

/// The end of the longest run of key characters that starts at `from`.
pub open spec fn word_end(s: Seq<char>, from: int) -> int
    decreases s.len() - from,
{
    if 0 <= from < s.len() && is_word_char(s[from]) {
        word_end(s, from + 1)
    } else {
        from
    }
}

/// The end of the longest run of digits that starts at `from`.
pub open spec fn digits_end(s: Seq<char>, from: int) -> int
    decreases s.len() - from,
{
    if 0 <= from < s.len() && is_digit(s[from]) {
        digits_end(s, from + 1)
    } else {
        from
    }
}

/// The kinds of node in the reading of a path.
#[derive(Clone, Copy, Debug, PartialEq, Eq, Structural)]
pub enum Rule {
    /// A key; its span is the key's name.
    ObjectKey,
    /// A bracketed index; its span is the digits between the brackets.
    ArrayIndex,
    /// A dot.
    Separator,
    /// The end of the input; its span is empty.
    EndOfInput,
}

/// The model of a node: its kind and its span, in characters.
pub struct Node {
    pub rule: Rule,
    pub start: int,
    pub end: int,
}

/// The reading of the indices that follow a key, and where they end; or the
/// position at which a bracket is opened and not completed.
pub open spec fn index_run(s: Seq<char>, from: int) -> Result<(Seq<Node>, int), int>
    decreases s.len() - from,
{
    if 0 <= from < s.len() && s[from] == '[' {
        let end = digits_end(s, from + 1);
        if from + 1 < end < s.len() && s[end] == ']' {
            match index_run(s, end + 1) {
                Ok((rest, stop)) => Ok(
                    (seq![Node { rule: Rule::ArrayIndex, start: from + 1, end }] + rest, stop),
                ),
                Err(at) => Err(at),
            }
        } else {
            Err(end)
        }
    } else {
        Ok((Seq::empty(), from))
    }
}

/// The reading of `segment ( "." segment )*` from `from` to the end of the
/// input, or the position at which the grammar cannot go on.
pub open spec fn segment_run(s: Seq<char>, from: int) -> Result<Seq<Node>, int>
    decreases s.len() - from,
    via segment_run_decreases
{
    let end = word_end(s, from);
    if end <= from {
        Err(from)
    } else {
        let key = Node { rule: Rule::ObjectKey, start: from, end };
        match index_run(s, end) {
            Err(at) => Err(at),
            Ok((indices, stop)) => if stop >= s.len() {
                Ok(seq![key] + indices + seq![Node { rule: Rule::EndOfInput, start: stop, end: stop }])
            } else if s[stop] == '.' {
                match segment_run(s, stop + 1) {
                    Ok(rest) => Ok(
                        seq![key] + indices + seq![
                            Node { rule: Rule::Separator, start: stop, end: stop + 1 },
                        ] + rest,
                    ),
                    Err(at) => Err(at),
                }
            } else {
                Err(stop)
            },
        }
    }
}

#[via_fn]
proof fn segment_run_decreases(s: Seq<char>, from: int) {
    if 0 <= from <= s.len() {
        lemma_word_end(s, from);
        lemma_index_run_stop(s, word_end(s, from));
    }
}

/// The reading of a whole path: its nodes in order, or the position, in
/// characters, at which the grammar cannot go on.
pub open spec fn scan(s: Seq<char>) -> Result<Seq<Node>, int> {
    if s.len() > 0 && s[0] == '.' {
        match segment_run(s, 1) {
            Ok(rest) => Ok(seq![Node { rule: Rule::Separator, start: 0, end: 1 }] + rest),
            Err(at) => Err(at),
        }
    } else {
        segment_run(s, 0)
    }
}

/// The number of bytes that the first `at` characters of `s` take in UTF-8.
pub open spec fn byte_offset(s: Seq<char>, at: int) -> nat {
    encode_utf8(s.subrange(0, at)).len()
}

/// A run of segments that the grammar gives up is given up at or after its
/// start and within the input.
pub proof fn lemma_segment_run_stop(s: Seq<char>, from: int)
    requires
        0 <= from <= s.len(),
    ensures
        segment_run(s, from) matches Err(at) ==> from <= at <= s.len(),
    decreases s.len() - from,
{
    lemma_word_end(s, from);
    let end = word_end(s, from);
    if end > from {
        lemma_index_run_stop(s, end);
        match index_run(s, end) {
            Ok((_, stop)) => {
                if stop < s.len() && s[stop] == '.' {
                    lemma_segment_run_stop(s, stop + 1);
                }
            },
            Err(_) => {},
        }
    }
}

/// The first characters of a text take no more bytes than the text.
pub proof fn lemma_byte_offset(s: Seq<char>, at: int)
    requires
        0 <= at <= s.len(),
    ensures
        byte_offset(s, at) <= encode_utf8(s).len(),
        byte_offset(s, s.len() as int) == encode_utf8(s).len(),
    decreases s.len(),
{
    assert(s.subrange(0, s.len() as int) =~= s);
    if at > 0 {
        let rest = s.drop_first();
        lemma_byte_offset(rest, at - 1);
        assert(s.subrange(0, at).drop_first() =~= rest.subrange(0, at - 1));
        assert(s.subrange(0, at)[0] == s[0]);
    } else {
        assert(s.subrange(0, 0) =~= Seq::<char>::empty());
    }
}

/// A run of key characters ends at or after its start and within the input.
pub proof fn lemma_word_end(s: Seq<char>, from: int)
    requires
        0 <= from <= s.len(),
    ensures
        from <= word_end(s, from) <= s.len(),
        forall|i: int| from <= i < word_end(s, from) ==> is_word_char(#[trigger] s[i]),
        word_end(s, from) < s.len() ==> !is_word_char(s[word_end(s, from)]),
    decreases s.len() - from,
{
    if from < s.len() && is_word_char(s[from]) {
        lemma_word_end(s, from + 1);
    }
}

/// A run of digits ends at or after its start and within the input.
pub proof fn lemma_digits_end(s: Seq<char>, from: int)
    requires
        0 <= from <= s.len(),
    ensures
        from <= digits_end(s, from) <= s.len(),
        forall|i: int| from <= i < digits_end(s, from) ==> is_digit(#[trigger] s[i]),
        digits_end(s, from) < s.len() ==> !is_digit(s[digits_end(s, from)]),
    decreases s.len() - from,
{
    if from < s.len() && is_digit(s[from]) {
        lemma_digits_end(s, from + 1);
    }
}

/// The indices after a key end at or after their start and within the input,
/// and a bracket that is not completed is given up within the input.
pub proof fn lemma_index_run_stop(s: Seq<char>, from: int)
    requires
        0 <= from <= s.len(),
    ensures
        match index_run(s, from) {
            Ok((_, stop)) => from <= stop <= s.len(),
            Err(at) => from < at <= s.len(),
        },
    decreases s.len() - from,
{
    if from < s.len() && s[from] == '[' {
        lemma_digits_end(s, from + 1);
        let end = digits_end(s, from + 1);
        if from + 1 < end < s.len() && s[end] == ']' {
            lemma_index_run_stop(s, end + 1);
        }
    }
}

/// What the grammar promises of a node over `s`: its span lies within `s`,
/// a key spans key characters and an index digits, at least one of them, a
/// separator spans one dot, and the end of the input is where `s` ends.
pub open spec fn well_spanned(s: Seq<char>, node: Node) -> bool {
    &&& 0 <= node.start <= node.end <= s.len()
    &&& match node.rule {
        Rule::ObjectKey => node.start < node.end && forall|i: int|
            node.start <= i < node.end ==> is_word_char(#[trigger] s[i]),
        Rule::ArrayIndex => node.start < node.end && forall|i: int|
            node.start <= i < node.end ==> is_digit(#[trigger] s[i]),
        Rule::Separator => node.end == node.start + 1 && s[node.start] == '.',
        Rule::EndOfInput => node.start == node.end == s.len(),
    }
}

/// Whether each of `nodes` is as the grammar promises.
pub open spec fn all_well_spanned(s: Seq<char>, nodes: Seq<Node>) -> bool {
    forall|i: int| 0 <= i < nodes.len() ==> well_spanned(s, #[trigger] nodes[i])
}

/// The nodes of the indices after a key are index nodes over digits.
pub proof fn lemma_index_run_nodes(s: Seq<char>, from: int)
    requires
        0 <= from <= s.len(),
    ensures
        index_run(s, from) matches Ok((nodes, _)) ==> all_well_spanned(s, nodes),
    decreases s.len() - from,
{
    if from < s.len() && s[from] == '[' {
        lemma_digits_end(s, from + 1);
        let end = digits_end(s, from + 1);
        if from + 1 < end < s.len() && s[end] == ']' {
            lemma_index_run_nodes(s, end + 1);
        }
    }
}

/// The nodes of a run of segments are as the grammar promises.
pub proof fn lemma_segment_run_nodes(s: Seq<char>, from: int)
    requires
        0 <= from <= s.len(),
    ensures
        segment_run(s, from) matches Ok(nodes) ==> all_well_spanned(s, nodes),
    decreases s.len() - from,
{
    lemma_word_end(s, from);
    let end = word_end(s, from);
    if end > from {
        lemma_index_run_stop(s, end);
        lemma_index_run_nodes(s, end);
        match index_run(s, end) {
            Ok((_, stop)) => {
                if stop < s.len() && s[stop] == '.' {
                    lemma_segment_run_nodes(s, stop + 1);
                }
            },
            Err(_) => {},
        }
    }
}

/// Every node of a reading is as the grammar promises.
pub proof fn lemma_scan_nodes(s: Seq<char>)
    ensures
        scan(s) matches Ok(nodes) ==> all_well_spanned(s, nodes),
{
    if s.len() > 0 && s[0] == '.' {
        lemma_segment_run_nodes(s, 1);
    } else {
        lemma_segment_run_nodes(s, 0);
    }
}

} // verus!
