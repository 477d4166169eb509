use jsh::{parse_document, parse_search, search, JsonValue, SearchError, SearchRules};

fn show(value: &JsonValue) -> String {
    format!("{:?}", value)
}

fn explain(error: &SearchError) -> String {
    format!("{:?}", error)
}

#[test]
fn test_search() {
    let mut b = br#"{ "a":{ "b":{ "c":10 } }, "a1":[{ "b1":{ "c1":"c1" } }, { "b2":{ "c2":"c2" } } ] }"#.to_vec();
    match parse_search(".a.b.c") {
        Ok(rule) => {
            let mut search_rules = SearchRules(rule);
            match search(&mut b, &mut search_rules) {
                Ok(v) => println!(".a.b.c : {}", show(&v)),
                Err(e) => panic!("{}", explain(&e)),
            }
        }
        Err(e) => {
            panic!("{}", explain(&e));
        }
    }
    match parse_search(".a1[0]") {
        Ok(rule) => {
            let mut search_rules = SearchRules(rule);
            match search(&mut b, &mut search_rules) {
                Ok(v) => println!(".a1[0] : {}", show(&v)),
                Err(e) => panic!("{}", explain(&e)),
            }
        }
        Err(e) => {
            panic!("{}", explain(&e));
        }
    }

    match parse_search(".a1[0].b1") {
        Ok(rule) => {
            let mut search_rules = SearchRules(rule);
            match search(&mut b, &mut search_rules) {
                Ok(v) => println!(".a1[0].b1 : {}", show(&v)),
                Err(e) => panic!("{}", explain(&e)),
            }
        }
        Err(e) => {
            panic!("{}", explain(&e));
        }
    }

    match parse_search(".a1[0].b1.c1") {
        Ok(rule) => {
            let mut search_rules = SearchRules(rule);
            match search(&mut b, &mut search_rules) {
                Ok(v) => println!(".a1[0].b1.c1 : {}", show(&v)),
                Err(e) => panic!("{}", explain(&e)),
            }
        }
        Err(e) => {
            panic!("{}", explain(&e));
        }
    }
}

fn run(path: &str, document: &str) -> Result<JsonValue, SearchError> {
    let mut bytes = document.as_bytes().to_vec();
    let mut rules = SearchRules(parse_search(path)?);
    search(&mut bytes, &mut rules)
}

const SAMPLE: &str = r#"{ "a":{ "b":{ "c":10 } }, "a1":[{ "b1":{ "c1":"c1" } }, { "b2":{ "c2":"c2" } } ] }"#;

#[test]
fn nested_keys_lead_to_the_number() {
    assert_eq!(run(".a.b.c", r#"{"a":{"b":{"c":10}}}"#), Ok(JsonValue::UInt(10)));
}

#[test]
fn keys_of_any_script_are_accepted() {
    assert_eq!(run(".是.b", r#"{"是":{"b":1}}"#), Ok(JsonValue::UInt(1)));
    assert_eq!(run(".key.是", r#"{"key":{"是":"ok"}}"#), Ok(JsonValue::String("ok".to_string())));
}

#[test]
fn an_index_after_a_key_selects_an_element() {
    assert_eq!(
        run(".a1[0].b1.c1", r#"{"a1":[{"b1":{"c1":"c1"}},{"b2":{"c2":"c2"}}]}"#),
        Ok(JsonValue::String("c1".to_string()))
    );
    assert_eq!(run(".a1[1].b2.c2", SAMPLE), Ok(JsonValue::String("c2".to_string())));
}

#[test]
fn the_sample_document_answers_each_path() {
    assert_eq!(run(".a.b.c", SAMPLE), Ok(JsonValue::UInt(10)));
    assert_eq!(
        run(".a1[0]", SAMPLE),
        Ok(JsonValue::Object(vec![(
            "b1".to_string(),
            JsonValue::Object(vec![("c1".to_string(), JsonValue::String("c1".to_string()))])
        )]))
    );
    assert_eq!(
        run(".a1[0].b1", SAMPLE),
        Ok(JsonValue::Object(vec![("c1".to_string(), JsonValue::String("c1".to_string()))]))
    );
}

#[test]
fn an_index_beyond_the_array_is_not_found() {
    assert_eq!(run(".a1[5]", SAMPLE), Err(SearchError::NotFound));
    assert_eq!(run(".a1[2]", SAMPLE), Err(SearchError::NotFound));
}

#[test]
fn an_absent_key_is_not_found() {
    assert_eq!(run(".a.z", SAMPLE), Err(SearchError::NotFound));
    assert_eq!(run(".z", SAMPLE), Err(SearchError::NotFound));
}

#[test]
fn a_malformed_document_is_refused() {
    for document in ["", "{", r#"{"a":}"#, "[1,2", r#"{"a" 1}"#] {
        match run(".a", document) {
            Err(SearchError::DocumentParse(text)) => assert!(!text.is_empty()),
            other => panic!("{:?}", other),
        }
    }
}

#[test]
fn a_refused_document_leaves_the_segments() {
    let mut bytes = b"{".to_vec();
    let mut rules = SearchRules(parse_search(".a.b").unwrap());
    assert!(matches!(search(&mut bytes, &mut rules), Err(SearchError::DocumentParse(_))));
    assert_eq!(bytes.len(), 1);
    assert_eq!(rules.next(), Some(Ok(jsh::SearchValue::ObjectKey("a".to_string()))));
    assert_eq!(rules.next(), Some(Ok(jsh::SearchValue::ObjectKey("b".to_string()))));
    assert_eq!(rules.next(), None);
}

#[test]
fn a_search_uses_the_segments_up() {
    let mut bytes = SAMPLE.as_bytes().to_vec();
    let mut rules = SearchRules(parse_search(".a.b").unwrap());
    assert!(search(&mut bytes, &mut rules).is_ok());
    assert_eq!(rules.next(), None);
    assert_eq!(bytes.len(), SAMPLE.len());
    // With no segment left the walk stays at the root.
    let mut small = b"[7]".to_vec();
    assert_eq!(search(&mut small, &mut rules), Ok(JsonValue::Array(vec![JsonValue::UInt(7)])));
}

#[test]
fn numbers_keep_their_form() {
    assert_eq!(run(".n", r#"{"n":-3}"#), Ok(JsonValue::Int(-3)));
    assert_eq!(run(".n", r#"{"n":18446744073709551615}"#), Ok(JsonValue::UInt(u64::MAX)));
    assert_eq!(run(".n", r#"{"n":1.5}"#), Ok(JsonValue::Float(1.5f64.to_bits())));
    assert_eq!(run(".n", r#"{"n":-0.25e2}"#), Ok(JsonValue::Float((-25.0f64).to_bits())));
}

#[test]
fn scalars_and_escapes_are_read() {
    assert_eq!(run(".v", r#"{"v":null}"#), Ok(JsonValue::Null));
    assert_eq!(run(".v", r#"{"v":true}"#), Ok(JsonValue::Bool(true)));
    assert_eq!(run(".v", r#"{"v":false}"#), Ok(JsonValue::Bool(false)));
    assert_eq!(run(".v", r#"{"v":"a\"b\n"}"#), Ok(JsonValue::String("a\"b\n".to_string())));
    assert_eq!(run(".v", r#"{"v":[]}"#), Ok(JsonValue::Array(vec![])));
    assert_eq!(run(".v", r#"{"v":{}}"#), Ok(JsonValue::Object(vec![])));
}

#[test]
fn a_large_object_is_searched_by_name() {
    let mut document = String::from("{");
    for i in 0..100 {
        if i > 0 {
            document.push(',');
        }
        document.push_str(&format!("\"k{}\":{}", i, i));
    }
    document.push('}');
    for i in [0u64, 31, 32, 33, 64, 99] {
        assert_eq!(run(&format!(".k{}", i), &document), Ok(JsonValue::UInt(i)));
    }
    assert_eq!(run(".k100", &document), Err(SearchError::NotFound));
}

#[test]
fn a_document_is_read_into_a_tree() {
    let mut bytes = br#"{"a":[1,-2,"x"],"b":{"c":null}}"#.to_vec();
    let length = bytes.len();
    assert_eq!(
        parse_document(&mut bytes),
        Ok(JsonValue::Object(vec![
            (
                "a".to_string(),
                JsonValue::Array(vec![
                    JsonValue::UInt(1),
                    JsonValue::Int(-2),
                    JsonValue::String("x".to_string())
                ])
            ),
            ("b".to_string(), JsonValue::Object(vec![("c".to_string(), JsonValue::Null)])),
        ]))
    );
    assert_eq!(bytes.len(), length);
    let mut bad = b"[1,".to_vec();
    assert!(matches!(parse_document(&mut bad), Err(SearchError::DocumentParse(_))));
    assert_eq!(bad.len(), 3);
}

#[test]
fn a_name_given_twice_selects_one_of_its_members() {
    let found = run(".a", r#"{"a":1,"b":0,"a":2}"#);
    assert!(found == Ok(JsonValue::UInt(1)) || found == Ok(JsonValue::UInt(2)));
    let mut bytes = br#"{"a":1,"b":0,"a":2}"#.to_vec();
    match parse_document(&mut bytes) {
        Ok(JsonValue::Object(members)) => {
            let mut names: Vec<&str> = members.iter().map(|(name, _)| name.as_str()).collect();
            names.sort();
            assert_eq!(names, vec!["a", "a", "b"]);
        }
        other => panic!("{:?}", other),
    }
}

#[test]
fn every_member_of_a_large_object_is_read() {
    let mut document = String::from("{");
    for i in 0..50 {
        if i > 0 {
            document.push(',');
        }
        document.push_str(&format!("\"k{}\":[{},\"{}\"]", i, i, i));
    }
    document.push('}');
    let mut bytes = document.into_bytes();
    match parse_document(&mut bytes) {
        Ok(JsonValue::Object(mut members)) => {
            assert_eq!(members.len(), 50);
            members.sort_by_key(|(name, _)| name[1..].parse::<u64>().unwrap());
            for (i, (name, value)) in members.iter().enumerate() {
                assert_eq!(name, &format!("k{}", i));
                assert_eq!(
                    value,
                    &JsonValue::Array(vec![JsonValue::UInt(i as u64), JsonValue::String(i.to_string())])
                );
            }
        }
        other => panic!("{:?}", other),
    }
}
