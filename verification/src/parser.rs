//! Reading a path by the grammar.

use vstd::prelude::*;
use vstd::std_specs::iter::IteratorSpec;
use crate::error::{Failure, SearchError};
use crate::grammar::{
    byte_offset, digits_end, index_run, is_digit, is_word_char, lemma_index_run_stop, scan,
    segment_run, word_end, Node, Rule,
};
use crate::pairs::{all_over, models, Pair, Pairs};

verus! {

/// The characters of a text, in order.
pub(crate) fn characters(text: &str) -> (chars: Vec<char>)
    ensures
        chars@ == text@,
{
    let mut rest = text.chars();
    let mut chars: Vec<char> = Vec::new();
    proof {
        assert(chars@ + rest.remaining() =~= text@);
    }
    loop
        invariant
            chars@ + rest.remaining() == text@,
            rest.decrease() is Some,
        ensures
            chars@ == text@,
        decreases rest.decrease()->0,
    {
        let ghost before = rest.remaining();
        match rest.next() {
            Some(c) => {
                chars.push(c);
                proof {
                    assert(chars@ + rest.remaining() =~= text@);
                }
            },
            None => {
                proof {
                    assert(chars@ + before =~= chars@);
                }
                break;
            },
        }
    }
    chars
}

fn word_char(c: char) -> (yes: bool)
    ensures
        yes == is_word_char(c),
{
    c == '_' || c.is_alphanumeric()
}

fn digit(c: char) -> (yes: bool)
    ensures
        yes == is_digit(c),
{
    '0' <= c && c <= '9'
}

/// Runs over the key characters from `from` on.
fn word_run(chars: &Vec<char>, from: usize) -> (end: usize)
    requires
        from <= chars.len(),
    ensures
        end == word_end(chars@, from as int),
        from <= end <= chars.len(),
{
    let mut end: usize = from;
    while end < chars.len() && word_char(chars[end])
        invariant
            from <= end <= chars.len(),
            word_end(chars@, from as int) == word_end(chars@, end as int),
        decreases chars.len() - end,
    {
        end += 1;
    }
    end
}

/// Runs over the digits from `from` on.
fn digit_run(chars: &Vec<char>, from: usize) -> (end: usize)
    requires
        from <= chars.len(),
    ensures
        end == digits_end(chars@, from as int),
        from <= end <= chars.len(),
{
    let mut end: usize = from;
    while end < chars.len() && digit(chars[end])
        invariant
            from <= end <= chars.len(),
            digits_end(chars@, from as int) == digits_end(chars@, end as int),
        decreases chars.len() - end,
    {
        end += 1;
    }
    end
}

/// The failure of the grammar at character `at` of `rule`.
fn parse_error(rule: &str, at: usize) -> (error: SearchError)
    requires
        at <= rule@.len(),
    ensures
        error@ == (Failure::Parse { offset: byte_offset(rule@, at as int), input: rule@ }),
{
    SearchError::Parse { offset: rule.substring_char(0, at).as_bytes().len(), input: rule.to_owned() }
}

/// `rest` with `done` before it.
spec fn after_nodes(done: Seq<Node>, rest: Result<Seq<Node>, int>) -> Result<Seq<Node>, int> {
    match rest {
        Ok(nodes) => Ok(done + nodes),
        Err(at) => Err(at),
    }
}

/// `rest` with the indices `done` before it.
spec fn after_indices(done: Seq<Node>, rest: Result<(Seq<Node>, int), int>) -> Result<
    (Seq<Node>, int),
    int,
> {
    match rest {
        Ok((nodes, stop)) => Ok((done + nodes, stop)),
        Err(at) => Err(at),
    }
}

/// Reads the indices that follow a key and appends their nodes.
fn read_indices<'a>(input: &'a str, chars: &Vec<char>, from: usize, nodes: &mut Vec<Pair<'a>>) -> (read:
    Result<usize, usize>)
    requires
        chars@ == input@,
        from <= chars.len(),
        all_over(old(nodes)@, input@),
    ensures
        all_over(final(nodes)@, input@),
        match index_run(chars@, from as int) {
            Ok((found, stop)) => read == Ok::<usize, usize>(stop as usize) && from <= stop
                <= chars.len() && models(final(nodes)@) == models(old(nodes)@) + found,
            Err(at) => read == Err::<usize, usize>(at as usize) && from <= at <= chars.len(),
        },
{
    let ghost s = chars@;
    let ghost before = models(nodes@);
    let ghost mut done: Seq<Node> = Seq::empty();
    let mut at: usize = from;
    proof {
        assert(before + done =~= before);
        assert(after_indices(done, index_run(s, at as int)) == index_run(s, from as int)) by {
            match index_run(s, at as int) {
                Ok((found, stop)) => assert(done + found =~= found),
                Err(_) => {},
            }
        }
    }
    while at < chars.len() && chars[at] == '['
        invariant
            s == chars@,
            chars@ == input@,
            from <= at <= chars.len(),
            all_over(nodes@, input@),
            models(nodes@) == before + done,
            index_run(s, from as int) == after_indices(done, index_run(s, at as int)),
        decreases chars.len() - at,
    {
        let end: usize = digit_run(chars, at + 1);
        if at + 1 < end && end < chars.len() && chars[end] == ']' {
            let pair = Pair::new(input, Rule::ArrayIndex, at + 1, end);
            let ghost earlier = nodes@;
            nodes.push(pair);
            proof {
                let node = Node { rule: Rule::ArrayIndex, start: at + 1, end: end as int };
                assert(models(nodes@) =~= models(earlier).push(node));
                assert(before + done.push(node) =~= (before + done).push(node));
                match index_run(s, end + 1) {
                    Ok((found, stop)) => assert(done.push(node) + found =~= done + (seq![node] + found)),
                    Err(_) => {},
                }
                done = done.push(node);
            }
            at = end + 1;
        } else {
            proof {
                lemma_index_run_stop(s, from as int);
            }
            return Err(end);
        }
    }
    proof {
        lemma_index_run_stop(s, from as int);
        assert(done + Seq::<Node>::empty() =~= done);
    }
    Ok(at)
}

/// Reads a path by the grammar. The result holds the nodes of the reading,
/// none of them handed out yet; a path that the grammar does not accept is
/// refused with the byte offset at which the grammar could not go on.
pub fn parse_search<'a>(rule: &'a str) -> (parsed: Result<Pairs<'a>, SearchError>)
    ensures
        match scan(rule@) {
            Ok(nodes) => parsed matches Ok(pairs) && pairs.wf() && pairs.text() == rule@
                && pairs.nodes() == nodes && pairs.position() == 0,
            Err(at) => parsed matches Err(error) && error@ == (Failure::Parse {
                offset: byte_offset(rule@, at),
                input: rule@,
            }),
        },
{
    let chars = characters(rule);
    let ghost s = chars@;
    let mut nodes: Vec<Pair<'a>> = Vec::new();
    let mut from: usize = 0;
    if chars.len() > 0 && chars[0] == '.' {
        nodes.push(Pair::new(rule, Rule::Separator, 0, 1));
        from = 1;
        proof {
            assert(models(nodes@) =~= seq![Node { rule: Rule::Separator, start: 0, end: 1 }]);
        }
    } else {
        proof {
            assert(models(nodes@) =~= Seq::<Node>::empty());
            match segment_run(s, 0) {
                Ok(rest) => assert(models(nodes@) + rest =~= rest),
                Err(_) => {},
            }
        }
    }
    loop
        invariant
            s == chars@,
            chars@ == rule@,
            from <= chars.len(),
            all_over(nodes@, rule@),
            scan(s) == after_nodes(models(nodes@), segment_run(s, from as int)),
        decreases chars.len() - from,
    {
        let ghost done = models(nodes@);
        let end: usize = word_run(&chars, from);
        if end <= from {
            return Err(parse_error(rule, from));
        }
        let ghost key = Node { rule: Rule::ObjectKey, start: from as int, end: end as int };
        let ghost earlier = nodes@;
        nodes.push(Pair::new(rule, Rule::ObjectKey, from, end));
        proof {
            assert(models(nodes@) =~= done.push(key));
        }
        let stop: usize = match read_indices(rule, &chars, end, &mut nodes) {
            Ok(stop) => stop,
            Err(at) => {
                return Err(parse_error(rule, at));
            },
        };
        let ghost indices = index_run(s, end as int)->Ok_0.0;
        if stop >= chars.len() {
            let ghost last = Node { rule: Rule::EndOfInput, start: stop as int, end: stop as int };
            let ghost earlier = nodes@;
            nodes.push(Pair::new(rule, Rule::EndOfInput, stop, stop));
            proof {
                assert(models(nodes@) =~= models(earlier).push(last));
                assert(models(nodes@) =~= done + (seq![key] + indices + seq![last]));
            }
            return Ok(Pairs::new(rule, nodes));
        }
        if chars[stop] != '.' {
            return Err(parse_error(rule, stop));
        }
        let ghost dot = Node { rule: Rule::Separator, start: stop as int, end: stop + 1 };
        let ghost earlier = nodes@;
        nodes.push(Pair::new(rule, Rule::Separator, stop, stop + 1));
        proof {
            assert(models(nodes@) =~= models(earlier).push(dot));
            match segment_run(s, stop + 1) {
                Ok(rest) => assert(models(nodes@) + rest =~= done + (seq![key] + indices + seq![dot]
                    + rest)),
                Err(_) => {},
            }
        }
        from = stop + 1;
    }
}

} // verus!
