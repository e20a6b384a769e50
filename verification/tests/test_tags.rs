use mx_yaml::{parse, Entry, Yaml};

fn s(text: &str) -> Yaml<'_> {
    Yaml::Scalar(text)
}

fn strs<'a>(items: Vec<&'a str>) -> Yaml<'a> {
    Yaml::Sequence(items.into_iter().map(Yaml::Scalar).collect())
}

fn map<'a>(entries: Vec<(Yaml<'a>, Yaml<'a>)>) -> Yaml<'a> {
    Yaml::Mapping(entries.into_iter().map(|(k, v)| Entry::new(k, v)).collect())
}

fn float_of(value: &Yaml<'_>) -> f64 {
    match value {
        Yaml::Float(text) => text.parse().unwrap(),
        other => panic!("Expected float, got {:?}", other),
    }
}

#[test]
fn tag_with_quoted_scalar() {
    assert_eq!(
        parse(r#"!str "hello world""#).unwrap(),
        map(vec![(s("__type"), s("str")), (s("__value"), s("hello world"))])
    );
}

#[test]
fn tag_with_flow_sequence() {
    assert_eq!(
        parse(r"!list [a, b, c]").unwrap(),
        map(vec![(s("__type"), s("list")), (s("__value"), strs(vec!["a", "b", "c"]))])
    );
}

#[test]
fn tag_with_flow_mapping() {
    assert_eq!(
        parse(r"!person {name: John, age: 30}").unwrap(),
        map(vec![
            (s("__type"), s("person")),
            (s("name"), s("John")),
            (s("age"), Yaml::Int(30))
        ])
    );
}

#[test]
fn tag_in_flow_mapping_value() {
    assert_eq!(
        parse(r"{key: !tagged value}").unwrap(),
        map(vec![(
            s("key"),
            map(vec![(s("__type"), s("tagged")), (s("__value"), s("value"))])
        )])
    );
}

#[test]
fn tag_with_hyphen_in_name() {
    assert_eq!(
        parse(r"!my-custom-tag value").unwrap(),
        map(vec![(s("__type"), s("my-custom-tag")), (s("__value"), s("value"))])
    );
}

#[test]
fn tag_with_underscore_in_name() {
    assert_eq!(
        parse(r"!my_tag value").unwrap(),
        map(vec![(s("__type"), s("my_tag")), (s("__value"), s("value"))])
    );
}

#[test]
fn empty_tag_name() {
    assert!(parse(r"! value").is_err());
}

#[test]
fn test_int_tag_creates_type_mapping() {
    let parsed = parse("!int 42").unwrap();
    if let Yaml::Mapping(entries) = parsed {
        assert_eq!(entries.len(), 2);
        assert_eq!(entries[0].key, Yaml::Scalar("__type"));
        assert_eq!(entries[0].value, Yaml::Scalar("int"));
        assert_eq!(entries[1].key, Yaml::Scalar("__value"));
        assert_eq!(entries[1].value, Yaml::Int(42));
    } else {
        panic!("Expected mapping");
    }
}

#[test]
fn test_int_tag_with_non_numeric() {
    let parsed = parse("!int abc").unwrap();
    if let Yaml::Mapping(entries) = parsed {
        assert_eq!(entries[0].value, Yaml::Scalar("int"));
        assert_eq!(entries[1].value, Yaml::Scalar("abc"));
    } else {
        panic!("Expected mapping");
    }
}

#[test]
fn test_float_tag_creates_type_mapping() {
    let parsed = parse("!float 3.14").unwrap();
    if let Yaml::Mapping(entries) = parsed {
        assert_eq!(entries[0].value, Yaml::Scalar("float"));
        assert_eq!(entries[1].value, Yaml::Float("3.14"));
        assert_eq!(float_of(&entries[1].value), 3.14);
    } else {
        panic!("Expected mapping");
    }
}

#[test]
fn test_bool_tag_creates_type_mapping() {
    let parsed = parse("!bool true").unwrap();
    if let Yaml::Mapping(entries) = parsed {
        assert_eq!(entries[0].value, Yaml::Scalar("bool"));
        assert_eq!(entries[1].value, Yaml::Bool(true));
    } else {
        panic!("Expected mapping");
    }
}

#[test]
fn test_tags_test_typed_values_in_mapping() {
    let yaml = r#"
count: 42
price: 19.99
enabled: true
"#;
    let parsed = parse(yaml).unwrap();
    if let Yaml::Mapping(entries) = parsed {
        assert_eq!(entries.len(), 3);
        assert_eq!(entries[0].value, Yaml::Int(42));
        assert_eq!(entries[1].value, Yaml::Float("19.99"));
        assert_eq!(float_of(&entries[1].value), 19.99);
        assert_eq!(entries[2].value, Yaml::Bool(true));
    } else {
        panic!("Expected mapping");
    }
}

#[test]
fn test_tags_test_auto_int_inference() {
    assert_eq!(parse("42").unwrap(), Yaml::Int(42));
    assert_eq!(parse("-123").unwrap(), Yaml::Int(-123));
    assert_eq!(parse("0").unwrap(), Yaml::Int(0));
}

#[test]
fn test_tags_test_auto_float_inference() {
    assert_eq!(parse("3.14").unwrap(), Yaml::Float("3.14"));
    assert_eq!(float_of(&parse("3.14").unwrap()), 3.14);
    assert_eq!(parse("-2.5").unwrap(), Yaml::Float("-2.5"));
    assert_eq!(float_of(&parse("-2.5").unwrap()), -2.5);
    assert_eq!(parse("1.0e10").unwrap(), Yaml::Float("1.0e10"));
    assert_eq!(float_of(&parse("1.0e10").unwrap()), 1.0e10);
}

#[test]
fn test_tags_test_auto_bool_inference() {
    assert_eq!(parse("true").unwrap(), Yaml::Bool(true));
    assert_eq!(parse("false").unwrap(), Yaml::Bool(false));
    assert_eq!(parse("yes").unwrap(), Yaml::Bool(true));
    assert_eq!(parse("no").unwrap(), Yaml::Bool(false));
    assert_eq!(parse("on").unwrap(), Yaml::Bool(true));
    assert_eq!(parse("off").unwrap(), Yaml::Bool(false));
}

#[test]
fn test_tags_test_quoted_strings_not_converted() {
    assert_eq!(parse(r#""42""#).unwrap(), Yaml::Scalar("42"));
    assert_eq!(parse(r#"'true'"#).unwrap(), Yaml::Scalar("true"));
    assert_eq!(parse(r#""3.14""#).unwrap(), Yaml::Scalar("3.14"));
}

#[test]
fn test_tags_test_non_numeric_strings_not_converted() {
    assert_eq!(parse("hello").unwrap(), Yaml::Scalar("hello"));
    assert_eq!(parse("foo123").unwrap(), Yaml::Scalar("foo123"));
}

#[test]
fn test_generic_tag_seq() {
    let yaml = r#"
tags: !seq<string> [rust, yaml, parser]
"#;
    let parsed = parse(yaml).unwrap();
    if let Yaml::Mapping(entries) = &parsed {
        if let Yaml::Mapping(inner) = &entries[0].value {
            assert_eq!(inner[0].value, Yaml::Scalar("seq<string>"));
            assert_eq!(
                inner[1].value,
                Yaml::Sequence(vec![
                    Yaml::Scalar("rust"),
                    Yaml::Scalar("yaml"),
                    Yaml::Scalar("parser")
                ])
            );
        } else {
            panic!("Expected inner mapping");
        }
    } else {
        panic!("Expected mapping");
    }
}

#[test]
fn test_generic_tag_nested() {
    let yaml = r#"!seq<option<string>> [hello, world]"#;
    let parsed = parse(yaml).unwrap();
    if let Yaml::Mapping(entries) = &parsed {
        assert_eq!(entries[0].value, Yaml::Scalar("seq<option<string>>"));
    } else {
        panic!("Expected mapping");
    }
}

#[test]
fn test_generic_tag_unclosed_bracket() {
    let result = parse("!seq<string [a, b]");
    assert!(result.is_err());
    let err = result.unwrap_err();
    assert!(err.msg.unwrap().contains("unclosed '<'"));
}

#[test]
fn test_generic_tag_unmatched_close() {
    let result = parse("!seq> [a, b]");
    assert!(result.is_err());
    let err = result.unwrap_err();
    assert!(err.msg.unwrap().contains("unmatched '>'"));
}

#[test]
fn test_generic_tag_with_spaces() {
    let yaml = r#"!option<string | int> 42"#;
    let result = parse(yaml);
    println!("Result with spaces: {:?}", result);
    assert!(result.is_err());
}

#[test]
fn tests_test_typed_values_in_mapping() {
    let yaml = r#"
count: 42
price: 19.99
enabled: true
"#;
    let parsed = parse(yaml).unwrap();
    if let Yaml::Mapping(entries) = parsed {
        assert_eq!(entries.len(), 3);
        assert_eq!(entries[0].value, Yaml::Int(42));
        assert_eq!(entries[1].value, Yaml::Float("19.99"));
        assert_eq!(float_of(&entries[1].value), 19.99);
        assert_eq!(entries[2].value, Yaml::Bool(true));
    } else {
        panic!("Expected mapping");
    }
}

#[test]
fn tests_test_auto_int_inference() {
    assert_eq!(parse("42").unwrap(), Yaml::Int(42));
    assert_eq!(parse("-123").unwrap(), Yaml::Int(-123));
    assert_eq!(parse("0").unwrap(), Yaml::Int(0));
}

#[test]
fn tests_test_auto_float_inference() {
    assert_eq!(float_of(&parse("3.14").unwrap()), 3.14);
    assert_eq!(float_of(&parse("-2.5").unwrap()), -2.5);
    assert_eq!(float_of(&parse("1.0e10").unwrap()), 1.0e10);
}

#[test]
fn tests_test_auto_bool_inference() {
    assert_eq!(parse("true").unwrap(), Yaml::Bool(true));
    assert_eq!(parse("false").unwrap(), Yaml::Bool(false));
    assert_eq!(parse("yes").unwrap(), Yaml::Bool(true));
    assert_eq!(parse("no").unwrap(), Yaml::Bool(false));
    assert_eq!(parse("on").unwrap(), Yaml::Bool(true));
    assert_eq!(parse("off").unwrap(), Yaml::Bool(false));
}

#[test]
fn tests_test_quoted_strings_not_converted() {
    assert_eq!(parse(r#""42""#).unwrap(), Yaml::Scalar("42"));
    assert_eq!(parse(r#"'true'"#).unwrap(), Yaml::Scalar("true"));
    assert_eq!(parse(r#""3.14""#).unwrap(), Yaml::Scalar("3.14"));
}

#[test]
fn tests_test_non_numeric_strings_not_converted() {
    assert_eq!(parse("hello").unwrap(), Yaml::Scalar("hello"));
    assert_eq!(parse("foo123").unwrap(), Yaml::Scalar("foo123"));
}
