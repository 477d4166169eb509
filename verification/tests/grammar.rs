use jsh::{parse_search, path_expression, Pairs, Rule, SearchError, SearchRules, SearchValue};

fn key(name: &str) -> SearchValue {
    SearchValue::ObjectKey(name.to_string())
}

fn refused_at(path: &str) -> usize {
    match parse_search(path) {
        Err(SearchError::Parse { offset, input }) => {
            assert_eq!(input, path);
            offset
        }
        other => panic!("{:?}", other.map(|_| ())),
    }
}

fn nodes(mut pairs: Pairs) -> Vec<(Rule, String)> {
    let mut out = Vec::new();
    while let Some(pair) = pairs.next() {
        out.push((pair.as_rule(), pair.as_str().to_string()));
    }
    out
}

#[test]
fn several_indices_after_a_key() {
    assert_eq!(
        path_expression(".abc[20][10]"),
        Ok(vec![key("abc"), SearchValue::ArrayIndex(20), SearchValue::ArrayIndex(10)])
    );
    let mut rules = SearchRules(parse_search(".abc[20][10]").unwrap());
    assert_eq!(rules.next(), Some(Ok(key("abc"))));
    assert_eq!(rules.next(), Some(Ok(SearchValue::ArrayIndex(20))));
    assert_eq!(rules.next(), Some(Ok(SearchValue::ArrayIndex(10))));
    assert_eq!(rules.next(), None);
    assert_eq!(rules.next(), None);
}

#[test]
fn a_leading_dot_changes_nothing() {
    for path in ["a", "a.b", "a1[0].b1.c1", "abc[20][10]", "是.b", "_x9.y_"] {
        let dotted = format!(".{}", path);
        let plain = path_expression(path);
        assert!(plain.is_ok());
        assert_eq!(path_expression(&dotted), plain);
    }
    assert_eq!(path_expression("a.b"), Ok(vec![key("a"), key("b")]));
}

#[test]
fn reading_twice_reads_the_same() {
    let first = nodes(parse_search(".a1[0].b1").unwrap());
    let second = nodes(parse_search(".a1[0].b1").unwrap());
    assert_eq!(first, second);
    assert_eq!(path_expression(".a1[0].b1"), path_expression(".a1[0].b1"));
}

#[test]
fn the_reading_holds_every_node() {
    assert_eq!(
        nodes(parse_search(".a[1].b").unwrap()),
        vec![
            (Rule::Separator, ".".to_string()),
            (Rule::ObjectKey, "a".to_string()),
            (Rule::ArrayIndex, "1".to_string()),
            (Rule::Separator, ".".to_string()),
            (Rule::ObjectKey, "b".to_string()),
            (Rule::EndOfInput, "".to_string()),
        ]
    );
    assert_eq!(
        nodes(parse_search("x").unwrap()),
        vec![(Rule::ObjectKey, "x".to_string()), (Rule::EndOfInput, "".to_string())]
    );
}

#[test]
fn separators_do_not_end_the_segments() {
    assert_eq!(
        path_expression(".a.b.c.d"),
        Ok(vec![key("a"), key("b"), key("c"), key("d")])
    );
    assert_eq!(
        path_expression("a[0].b[1].c"),
        Ok(vec![
            key("a"),
            SearchValue::ArrayIndex(0),
            key("b"),
            SearchValue::ArrayIndex(1),
            key("c")
        ])
    );
}

#[test]
fn keys_are_words() {
    assert_eq!(path_expression("_"), Ok(vec![key("_")]));
    assert_eq!(path_expression("a_1"), Ok(vec![key("a_1")]));
    assert_eq!(path_expression("123"), Ok(vec![key("123")]));
    assert_eq!(path_expression("是"), Ok(vec![key("是")]));
    assert_eq!(path_expression("Ünï.ключ.٣"), Ok(vec![key("Ünï"), key("ключ"), key("٣")]));
}

#[test]
fn what_is_no_word_is_refused() {
    assert_eq!(refused_at("a-b"), 1);
    assert_eq!(refused_at("a b"), 1);
    assert_eq!(refused_at(" a"), 0);
    assert_eq!(refused_at("a "), 1);
    assert_eq!(refused_at("a.*"), 2);
    assert_eq!(refused_at("$"), 0);
    assert_eq!(refused_at("a。b"), 1);
}

#[test]
fn the_empty_path_is_refused() {
    assert_eq!(refused_at(""), 0);
    assert_eq!(
        parse_search("").map(|_| ()),
        Err(SearchError::Parse { offset: 0, input: String::new() })
    );
}

#[test]
fn an_empty_key_is_refused() {
    assert_eq!(refused_at("."), 1);
    assert_eq!(refused_at(".."), 1);
    assert_eq!(refused_at("..a"), 1);
    assert_eq!(refused_at("a..b"), 2);
    assert_eq!(refused_at("[0]"), 0);
    assert_eq!(refused_at(".[0]"), 1);
}

#[test]
fn a_trailing_dot_is_refused() {
    assert_eq!(refused_at("a."), 2);
    assert_eq!(refused_at(".a.b."), 5);
    assert_eq!(refused_at("a[0]."), 5);
}

#[test]
fn a_bracket_that_is_not_completed_is_refused() {
    assert_eq!(refused_at("a["), 2);
    assert_eq!(refused_at("a[1"), 3);
    assert_eq!(refused_at("a[]"), 2);
    assert_eq!(refused_at("a[12"), 4);
    assert_eq!(refused_at("a[0][") , 5);
}

#[test]
fn an_index_holds_digits_only() {
    assert_eq!(refused_at("a[x]"), 2);
    assert_eq!(refused_at("a[1x]"), 3);
    assert_eq!(refused_at("a[-1]"), 2);
    assert_eq!(refused_at("a[ 1]"), 2);
    assert_eq!(refused_at("a[1 ]"), 3);
    assert_eq!(refused_at("a[٣]"), 2);
}

#[test]
fn after_an_index_comes_a_dot_an_index_or_the_end() {
    assert_eq!(refused_at("a[1]b"), 4);
    assert_eq!(refused_at("a[1]]"), 4);
    assert_eq!(refused_at("a]"), 1);
}

#[test]
fn the_offset_counts_bytes() {
    // Each of the two characters of the key takes three bytes.
    assert_eq!(refused_at("是是."), 7);
    assert_eq!(refused_at("是 "), 3);
    assert_eq!(refused_at(".é[x]"), 4);
}

#[test]
fn an_index_is_read_in_base_ten() {
    assert_eq!(path_expression("a[0]"), Ok(vec![key("a"), SearchValue::ArrayIndex(0)]));
    assert_eq!(path_expression("a[007]"), Ok(vec![key("a"), SearchValue::ArrayIndex(7)]));
    assert_eq!(path_expression("a[1234567890]"), Ok(vec![key("a"), SearchValue::ArrayIndex(1234567890)]));
    let largest = format!("a[{}]", usize::MAX);
    assert_eq!(path_expression(&largest), Ok(vec![key("a"), SearchValue::ArrayIndex(usize::MAX)]));
}

#[test]
fn an_index_too_large_is_invalid() {
    let beyond = format!("a[{}0]", usize::MAX);
    assert_eq!(path_expression(&beyond), Err(SearchError::InvalidIndex));
    assert_eq!(path_expression("a[99999999999999999999999999999999]"), Err(SearchError::InvalidIndex));
    let next = format!("a[{}]", usize::MAX as u128 + 1);
    assert_eq!(path_expression(&next), Err(SearchError::InvalidIndex));
    // The grammar accepts it; only the extractor refuses it, and only when it gets there.
    let mut rules = SearchRules(parse_search(&next).unwrap());
    assert_eq!(rules.next(), Some(Ok(key("a"))));
    assert_eq!(rules.next(), Some(Err(SearchError::InvalidIndex)));
    assert_eq!(rules.next(), None);
}
