use jsh::{
    locate, match_rule, parse_search, query, walk, JsonKind, JsonValue, SearchError, SearchRules,
    SearchValue,
};

fn text(s: &str) -> JsonValue {
    JsonValue::String(s.to_string())
}

fn object(members: Vec<(&str, JsonValue)>) -> JsonValue {
    JsonValue::Object(members.into_iter().map(|(name, value)| (name.to_string(), value)).collect())
}

fn sample() -> JsonValue {
    object(vec![
        ("a", object(vec![("b", object(vec![("c", JsonValue::UInt(10))]))])),
        (
            "a1",
            JsonValue::Array(vec![
                object(vec![("b1", object(vec![("c1", text("c1"))]))]),
                object(vec![("b2", object(vec![("c2", text("c2"))]))]),
            ]),
        ),
    ])
}

fn every_kind() -> Vec<JsonValue> {
    vec![
        JsonValue::Null,
        JsonValue::Bool(true),
        JsonValue::Int(-1),
        JsonValue::UInt(1),
        JsonValue::Float(0.5f64.to_bits()),
        text("s"),
        JsonValue::Array(vec![JsonValue::Null]),
        object(vec![("0", JsonValue::Null)]),
    ]
}

#[test]
fn each_value_has_its_kind() {
    let kinds: Vec<JsonKind> = every_kind().iter().map(|value| value.kind()).collect();
    assert_eq!(
        kinds,
        vec![
            JsonKind::Null,
            JsonKind::Bool,
            JsonKind::Number,
            JsonKind::Number,
            JsonKind::Number,
            JsonKind::String,
            JsonKind::Array,
            JsonKind::Object,
        ]
    );
}

#[test]
fn an_index_wants_an_array() {
    for value in every_kind() {
        let found = match_rule(&SearchValue::ArrayIndex(0), &value);
        if value.kind() == JsonKind::Array {
            assert_eq!(found, Ok(&JsonValue::Null));
        } else {
            assert_eq!(
                found,
                Err(SearchError::TypeMismatch { expected: JsonKind::Array, actual: value.kind() })
            );
        }
    }
}

#[test]
fn a_key_wants_an_object() {
    for value in every_kind() {
        let found = match_rule(&SearchValue::ObjectKey("0".to_string()), &value);
        if value.kind() == JsonKind::Object {
            assert_eq!(found, Ok(&JsonValue::Null));
        } else {
            assert_eq!(
                found,
                Err(SearchError::TypeMismatch { expected: JsonKind::Object, actual: value.kind() })
            );
        }
    }
}

#[test]
fn a_mismatch_in_the_middle_of_a_path() {
    assert_eq!(
        locate(".a[0]", &sample()),
        Err(SearchError::TypeMismatch { expected: JsonKind::Array, actual: JsonKind::Object })
    );
    assert_eq!(
        locate(".a1.b1", &sample()),
        Err(SearchError::TypeMismatch { expected: JsonKind::Object, actual: JsonKind::Array })
    );
    assert_eq!(
        locate(".a.b.c.d", &sample()),
        Err(SearchError::TypeMismatch { expected: JsonKind::Object, actual: JsonKind::Number })
    );
}

#[test]
fn an_element_is_found_by_its_position() {
    let array = JsonValue::Array(vec![text("zero"), text("one"), text("two")]);
    assert_eq!(match_rule(&SearchValue::ArrayIndex(0), &array), Ok(&text("zero")));
    assert_eq!(match_rule(&SearchValue::ArrayIndex(2), &array), Ok(&text("two")));
    assert_eq!(match_rule(&SearchValue::ArrayIndex(3), &array), Err(SearchError::NotFound));
    assert_eq!(match_rule(&SearchValue::ArrayIndex(usize::MAX), &array), Err(SearchError::NotFound));
    let empty = JsonValue::Array(vec![]);
    assert_eq!(match_rule(&SearchValue::ArrayIndex(0), &empty), Err(SearchError::NotFound));
}

#[test]
fn a_member_is_found_by_its_exact_name() {
    let value = object(vec![("a", text("first")), ("ab", text("second")), ("A", text("third"))]);
    let find = |name: &str| match_rule(&SearchValue::ObjectKey(name.to_string()), &value).cloned();
    assert_eq!(find("a"), Ok(text("first")));
    assert_eq!(find("ab"), Ok(text("second")));
    assert_eq!(find("A"), Ok(text("third")));
    assert_eq!(find("b"), Err(SearchError::NotFound));
    assert_eq!(find(""), Err(SearchError::NotFound));
    assert_eq!(find("abc"), Err(SearchError::NotFound));
}

#[test]
fn the_first_member_of_a_name_is_taken() {
    let value = object(vec![("a", text("first")), ("b", text("other")), ("a", text("second"))]);
    assert_eq!(match_rule(&SearchValue::ObjectKey("a".to_string()), &value), Ok(&text("first")));
}

#[test]
fn locate_answers_on_a_built_document() {
    let document = sample();
    assert_eq!(locate(".a.b.c", &document), Ok(JsonValue::UInt(10)));
    assert_eq!(locate("a.b.c", &document), Ok(JsonValue::UInt(10)));
    assert_eq!(locate(".a1[0].b1.c1", &document), Ok(text("c1")));
    assert_eq!(locate(".a1[1].b2", &document), Ok(object(vec![("c2", text("c2"))])));
    assert_eq!(locate(".a1[5]", &document), Err(SearchError::NotFound));
    assert_eq!(locate(".a.z", &document), Err(SearchError::NotFound));
    assert_eq!(
        locate(".a.", &document),
        Err(SearchError::Parse { offset: 3, input: ".a.".to_string() })
    );
    assert_eq!(locate(".a1[99999999999999999999999]", &document), Err(SearchError::InvalidIndex));
}

#[test]
fn the_first_failure_is_the_one_reported() {
    let document = sample();
    // The key is absent, so the index after it is never read.
    assert_eq!(locate(".z[99999999999999999999999]", &document), Err(SearchError::NotFound));
    assert_eq!(
        locate(".a[99999999999999999999999].z", &document),
        Err(SearchError::InvalidIndex)
    );
    assert_eq!(
        locate(".a1[0].b1.c1.x.y", &document),
        Err(SearchError::TypeMismatch { expected: JsonKind::Object, actual: JsonKind::String })
    );
}

#[test]
fn a_walk_lends_and_stops_at_the_failure() {
    let document = sample();
    let mut rules = SearchRules(parse_search(".a.b").unwrap());
    let found = walk(&document, &mut rules);
    assert_eq!(found, Ok(&object(vec![("c", JsonValue::UInt(10))])));
    assert_eq!(rules.next(), None);

    let mut rules = SearchRules(parse_search(".a.x.b[3]").unwrap());
    assert_eq!(walk(&document, &mut rules), Err(SearchError::NotFound));
    assert_eq!(rules.next(), Some(Ok(SearchValue::ObjectKey("b".to_string()))));
    assert_eq!(rules.next(), Some(Ok(SearchValue::ArrayIndex(3))));
    assert_eq!(rules.next(), None);
}

#[test]
fn reading_a_path_twice_selects_the_same() {
    let document = sample();
    for path in [".a.b.c", ".a1[1]", ".a1[7]", ".a.b[0]", "a."] {
        assert_eq!(locate(path, &document), locate(path, &document));
    }
}

#[test]
fn a_copy_is_the_whole_tree() {
    for value in every_kind() {
        assert_eq!(value.clone(), value);
    }
    let document = sample();
    let copy = document.clone();
    assert_eq!(copy, document);
    assert_eq!(locate(".a1[1].b2.c2", &copy), Ok(text("c2")));
}

#[test]
fn a_query_reads_the_document_before_the_path() {
    let mut good = br#"{"a":[1,2,3]}"#.to_vec();
    assert_eq!(query(".a[2]", &mut good), Ok(JsonValue::UInt(3)));
    assert_eq!(good.len(), 13);
    assert_eq!(
        query("a[", &mut good),
        Err(SearchError::Parse { offset: 2, input: "a[".to_string() })
    );
    let mut bad = b"{".to_vec();
    assert!(matches!(query(".a", &mut bad), Err(SearchError::DocumentParse(_))));
    assert!(matches!(query("a[", &mut bad), Err(SearchError::DocumentParse(_))));
}
