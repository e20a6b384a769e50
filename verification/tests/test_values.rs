use mx_yaml::cursor::Parser;
use mx_yaml::scalar::{parse_float, parse_int};
use mx_yaml::tag::wrap_tagged;
use mx_yaml::{parse, Entry, Json, Member, Yaml};

fn s(text: &str) -> Yaml<'_> {
    Yaml::Scalar(text)
}

fn map<'a>(entries: Vec<(Yaml<'a>, Yaml<'a>)>) -> Yaml<'a> {
    Yaml::Mapping(entries.into_iter().map(|(k, v)| Entry::new(k, v)).collect())
}

fn text_of(value: Yaml<'_>) -> String {
    match value {
        Yaml::Mapping(entries) => match &entries[0].value {
            Yaml::String(text) => text.clone(),
            other => panic!("Expected text, got {:?}", other),
        },
        other => panic!("Expected mapping, got {:?}", other),
    }
}

#[test]
fn entries_keep_the_order_of_the_source() {
    assert_eq!(
        parse("zebra: 1\nalpha: 2\n").unwrap(),
        map(vec![(s("zebra"), Yaml::Int(1)), (s("alpha"), Yaml::Int(2))])
    );
    assert_eq!(
        parse("{zebra: 1, alpha: 2, zebra: 3}").unwrap(),
        map(vec![
            (s("zebra"), Yaml::Int(1)),
            (s("alpha"), Yaml::Int(2)),
            (s("zebra"), Yaml::Int(3))
        ])
    );
}

#[test]
fn quoting_keeps_a_scalar_text() {
    assert_eq!(parse("\"42\"").unwrap(), Yaml::Scalar("42"));
    assert_eq!(parse("42").unwrap(), Yaml::Int(42));
    assert_eq!(parse("'yes'").unwrap(), Yaml::Scalar("yes"));
    assert_eq!(parse("\"a\\nb\"").unwrap(), Yaml::Scalar("a\\nb"));
}

#[test]
fn truth_values_in_any_case() {
    assert_eq!(Parser::parse_bool("yes"), Some(true));
    assert_eq!(Parser::parse_bool("off"), Some(false));
    assert_eq!(Parser::parse_bool("YES"), Some(true));
    assert_eq!(Parser::parse_bool("True"), Some(true));
    assert_eq!(Parser::parse_bool("oN"), Some(true));
    assert_eq!(Parser::parse_bool("FALSE"), Some(false));
    assert_eq!(Parser::parse_bool("No"), Some(false));
    assert_eq!(Parser::parse_bool("OFF"), Some(false));
    assert_eq!(Parser::parse_bool("y"), None);
    assert_eq!(Parser::parse_bool("truee"), None);
    assert_eq!(Parser::parse_bool(""), None);
    assert_eq!(Parser::parse_bool("1"), None);
    assert_eq!(parse("Yes").unwrap(), Yaml::Bool(true));
}

#[test]
fn integers_of_sixty_four_bits() {
    assert_eq!(parse_int(b"0"), Some(0));
    assert_eq!(parse_int(b"-0"), Some(0));
    assert_eq!(parse_int(b"+7"), Some(7));
    assert_eq!(parse_int(b"007"), Some(7));
    assert_eq!(parse_int(b"9223372036854775807"), Some(i64::MAX));
    assert_eq!(parse_int(b"-9223372036854775808"), Some(i64::MIN));
    assert_eq!(parse_int(b"9223372036854775808"), None);
    assert_eq!(parse_int(b"-9223372036854775809"), None);
    assert_eq!(parse_int(b"00000000000000000000000012"), Some(12));
    assert_eq!(parse_int(b""), None);
    assert_eq!(parse_int(b"-"), None);
    assert_eq!(parse_int(b"+"), None);
    assert_eq!(parse_int(b"1a"), None);
    assert_eq!(parse_int(b"1 "), None);
    assert_eq!(parse_int(b"--1"), None);
}

#[test]
fn floating_point_literals() {
    for text in ["3.14", "-2.5", "1.0e10", "1e5", "1E5", "1.", ".5", "+.5e-3", "0.0", "1e+9"] {
        assert!(parse_float(text.as_bytes()), "{}", text);
        assert!(text.parse::<f64>().is_ok(), "{}", text);
    }
    for text in ["12", ".", "e5", "1e", "1e+", "1.2.3", "1e5x", "", "-", "abc.d", "1 .5", "inf", "nan"] {
        assert!(!parse_float(text.as_bytes()), "{}", text);
    }
    for text in [".", "e5", "1e", "1e+", "1.2.3", "1e5x", "abc.d", "1 .5"] {
        assert!(text.parse::<f64>().is_err(), "{}", text);
    }
}

#[test]
fn kinds_of_plain_scalars() {
    assert_eq!(Parser::infer_scalar_type("on"), Yaml::Bool(true));
    assert_eq!(Parser::infer_scalar_type("-12"), Yaml::Int(-12));
    assert_eq!(Parser::infer_scalar_type("1.5"), Yaml::Float("1.5"));
    assert_eq!(Parser::infer_scalar_type("1.5.0"), Yaml::Scalar("1.5.0"));
    assert_eq!(
        Parser::infer_scalar_type("99999999999999999999"),
        Yaml::Scalar("99999999999999999999")
    );
    assert_eq!(Parser::infer_scalar_type(""), Yaml::Scalar(""));
}

#[test]
fn flow_and_block_sequences_are_equal() {
    let expected = Yaml::Sequence(vec![s("a"), s("b"), s("c")]);
    assert_eq!(parse("[a, b, c]").unwrap(), expected);
    assert_eq!(parse("- a\n- b\n- c\n").unwrap(), expected);
}

#[test]
fn a_comment_ends_a_plain_scalar() {
    assert_eq!(parse("key: a b # c").unwrap(), map(vec![(s("key"), s("a b"))]));
    assert_eq!(parse("key: a b # c\n").unwrap(), map(vec![(s("key"), s("a b"))]));
    assert_eq!(parse("key: 12 #c\nnext: a#b c\n").unwrap(), map(vec![(s("key"), Yaml::Int(12)), (s("next"), s("a"))]));
    assert_eq!(parse("a   b").unwrap(), s("a   b"));
}

#[test]
fn brackets_keep_colons_and_comment_signs_in_a_scalar() {
    assert_eq!(
        parse("k[a: b #1](x: y): v").unwrap(),
        map(vec![(s("k[a: b #1](x: y)"), s("v"))])
    );
}

#[test]
fn literal_block_scalar_chomping() {
    assert_eq!(text_of(parse("key: |-\n    line1\n    line2\n").unwrap()), "line1\nline2");
    assert_eq!(text_of(parse("key: |\n    line1\n    line2\n").unwrap()), "line1\nline2\n");
    assert_eq!(text_of(parse("key: |\n    line1\n    line2\n\n\n").unwrap()), "line1\nline2\n");
    assert_eq!(text_of(parse("key: |+\n    line1\n    line2\n\n\n").unwrap()), "line1\nline2\n\n\n");
    assert_eq!(text_of(parse("key: |+\n    line1\n").unwrap()), "line1\n");
    assert_eq!(text_of(parse("key: |\n").unwrap()), "");
    assert_eq!(text_of(parse("key: |\n\n").unwrap()), "");
}

#[test]
fn folded_block_scalar_joins_lines_with_blanks() {
    assert_eq!(text_of(parse("key: >\n  one\n  two\n").unwrap()), "one two\n");
    assert_eq!(text_of(parse("key: >-\n  one\n  two\n").unwrap()), "one two");
    assert_eq!(text_of(parse("key: >\n  one\n\n  two\n").unwrap()), "one\n two\n");
    assert_eq!(text_of(parse("key: |\n  one\n\n  two\n").unwrap()), "one\n\ntwo\n");
}

#[test]
fn block_scalar_keeps_indentation_beyond_that_of_its_content() {
    assert_eq!(text_of(parse("key: |\n  one\n    two\n  three\n").unwrap()), "one\n  two\nthree\n");
    assert_eq!(text_of(parse("key: |2\n    one\n").unwrap()), "  one\n");
    assert_eq!(text_of(parse("key: |2-\n    one\n").unwrap()), "  one");
    assert_eq!(text_of(parse("key: |-2\n    one\n").unwrap()), "  one");
    assert_eq!(text_of(parse("key: | # note\n  one\n").unwrap()), "one\n");
}

#[test]
fn block_scalar_ends_before_a_line_indented_less() {
    assert_eq!(
        parse("a:\n  b: |\n    text\n  c: d\ne: f\n").unwrap(),
        map(vec![
            (
                s("a"),
                map(vec![(s("b"), Yaml::String("text\n".to_string())), (s("c"), s("d"))])
            ),
            (s("e"), s("f"))
        ])
    );
}

#[test]
fn a_tag_wraps_its_value() {
    assert_eq!(
        parse("!int 42").unwrap(),
        map(vec![(s("__type"), s("int")), (s("__value"), Yaml::Int(42))])
    );
    assert_eq!(
        wrap_tagged("t", map(vec![(s("a"), s("b"))])),
        map(vec![(s("__type"), s("t")), (s("a"), s("b"))])
    );
    assert_eq!(
        wrap_tagged("t", Yaml::Sequence(vec![])),
        map(vec![(s("__type"), s("t")), (s("__value"), Yaml::Sequence(vec![]))])
    );
    assert_eq!(wrap_tagged("t", map(vec![])), map(vec![(s("__type"), s("t"))]));
}

#[test]
fn document_start_and_carriage_returns() {
    assert_eq!(parse("---\na: b\r\nc: d\r\n").unwrap(), map(vec![(s("a"), s("b")), (s("c"), s("d"))]));
}

#[test]
fn a_copy_equals_its_original() {
    let value = parse("a:\n  - 1\n  - {b: 2.5, c: |\n      text\n    }\n").unwrap_or(Yaml::Bool(false));
    assert_eq!(value.clone(), value);
    let entry = Entry::new(s("k"), Yaml::Sequence(vec![Yaml::Int(1)]));
    assert_eq!(entry.clone(), entry);
    let json = value.to_json();
    assert_eq!(json.clone(), json);
    assert_eq!(json.duplicate(), json);
}

#[test]
fn printing_in_block_style() {
    assert_eq!(Yaml::Int(-12).to_string(), "-12");
    assert_eq!(Yaml::Int(i64::MIN).to_string(), "-9223372036854775808");
    assert_eq!(Yaml::Bool(false).to_string(), "false");
    assert_eq!(Yaml::Float("1.50").to_string(), "1.50");
    assert_eq!(Yaml::String("a\nb".to_string()).to_string(), "a\nb");
    assert_eq!(Yaml::Sequence(vec![]).to_string(), "");
    assert_eq!(
        Yaml::Sequence(vec![s("a"), Yaml::Sequence(vec![s("b")]), map(vec![]), map(vec![(s("k"), s("v")), (s("l"), s("w"))])]).to_string(),
        "- a\n-\n  - b\n- {}\n- k: v\n  l: w\n"
    );
    assert_eq!(
        map(vec![(Yaml::Sequence(vec![s("a")]), s("v")), (s("k"), map(vec![(s("__type"), s("t"))]))]).to_string(),
        "  - a\n: v\nk: !t {}\n"
    );
    assert_eq!(
        map(vec![(s("__type"), s("t")), (s("__value"), Yaml::Int(1))]).to_string(),
        "!t 1\n"
    );
    assert_eq!(
        map(vec![(s("__type"), s("t")), (s("a"), Yaml::Int(1))]).to_string(),
        "!t\na: 1\n"
    );
    assert_eq!(Entry::new(s("k"), Yaml::Int(1)).to_string(), "k: 1");
}

#[test]
fn printing_and_parsing_again_gives_the_same_value() {
    for text in [
        "a: 1\nb:\n  - x\n  - y: z\n    w: -5\nc: !t\n  d: true\n",
        "- 12\n- false\n- plain text\n-\n  - nested\n",
        "-9223372036854775808",
        "k: !int 7\n",
    ] {
        let value = parse(text).unwrap();
        let printed = value.to_string();
        assert_eq!(parse(&printed).unwrap(), value, "{}", text);
    }
}

#[test]
fn json_text_is_compact_and_quotes_strings() {
    assert_eq!(Json::String("hi".to_string()).to_string(), "\"hi\"");
    assert_eq!(
        Json::String("a\"b\\c\nd\u{1}é".to_string()).to_string(),
        "\"a\\\"b\\\\c\\nd\\u0001é\""
    );
    assert_eq!(Json::Int(-5).to_string(), "-5");
    assert_eq!(Json::Int(i64::MIN).to_string(), "-9223372036854775808");
    assert_eq!(Json::Int(0).to_string(), "0");
    assert_eq!(
        Json::Array(vec![Json::Float("1.50".to_string()), Json::Float("2e3".to_string())]).to_string(),
        "[1.5,2000.0]"
    );
    assert_eq!(Json::Float("1.5".to_string()).to_string(), "1.5");
    assert_eq!(Json::Bool(true).to_string(), "true");
    assert_eq!(Json::Array(vec![]).to_string(), "[]");
    assert_eq!(Json::Object(vec![]).to_string(), "{}");
    assert_eq!(
        Json::Array(vec![Json::Int(1), Json::Array(vec![Json::Bool(false)]), Json::String("x".to_string())]).to_string(),
        "[1,[false],\"x\"]"
    );
    assert_eq!(
        Json::Object(vec![
            Member { name: "a b".to_string(), value: Json::Int(1) },
            Member { name: "c".to_string(), value: Json::Object(vec![]) }
        ])
        .to_string(),
        "{\"a b\":1,\"c\":{}}"
    );
}

#[test]
fn json_objects_keep_the_first_place_and_the_last_value_of_a_name() {
    let value = parse("{b: 1, a: 2, b: 3, c: 4}").unwrap();
    assert_eq!(
        value.to_json(),
        Json::Object(vec![
            Member { name: "b".to_string(), value: Json::Int(3) },
            Member { name: "a".to_string(), value: Json::Int(2) },
            Member { name: "c".to_string(), value: Json::Int(4) }
        ])
    );
    assert_eq!(value.to_json().to_string(), "{\"b\":3,\"a\":2,\"c\":4}");
}

#[test]
fn json_names_of_keys_that_are_no_text() {
    let value = map(vec![
        (Yaml::Int(-1), s("i")),
        (Yaml::Bool(true), s("b")),
        (Yaml::Float("2.50"), s("f")),
        (Yaml::String("t\n".to_string()), s("o")),
        (Yaml::Sequence(vec![s("x"), Yaml::Int(1)]), s("s")),
        (map(vec![(s("k"), Yaml::Bool(false))]), s("m")),
    ]);
    let names: Vec<String> = match value.to_json() {
        Json::Object(members) => members.into_iter().map(|m| m.name).collect(),
        other => panic!("Expected object, got {:?}", other),
    };
    assert_eq!(
        names,
        vec!["-1", "true", "2.50", "\"t\\n\"", "[\"x\",1]", "{\"k\":false}"]
    );
}

#[test]
fn json_of_scalars_and_sequences() {
    assert_eq!(s("a").to_json(), Json::String("a".to_string()));
    assert_eq!(Yaml::String("b".to_string()).to_json(), Json::String("b".to_string()));
    assert_eq!(Yaml::Float("1e3").to_json(), Json::Float("1e3".to_string()));
    assert_eq!(
        Yaml::Sequence(vec![Yaml::Int(1), Yaml::Bool(true)]).to_json(),
        Json::Array(vec![Json::Int(1), Json::Bool(true)])
    );
}

#[test]
fn decorated_keys_are_taken_apart() {
    assert_eq!(
        Yaml::parse_mx_key("+name[label](value)"),
        Some(("name".to_string(), "label".to_string(), Some("value".to_string())))
    );
    assert_eq!(
        Yaml::parse_mx_key("+a.b[l]"),
        Some(("a.b".to_string(), "l".to_string(), None))
    );
    assert_eq!(
        Yaml::parse_mx_key("+[]()"),
        Some(("".to_string(), "".to_string(), Some("".to_string())))
    );
    assert_eq!(
        Yaml::parse_mx_key("+n[a](b)[c](d)"),
        Some(("n".to_string(), "a](b)[c".to_string(), Some("d".to_string())))
    );
    assert_eq!(
        Yaml::parse_mx_key("+n[a(b)]"),
        Some(("n".to_string(), "a(b)".to_string(), None))
    );
    assert_eq!(
        Yaml::parse_mx_key("+é[ü](ö)"),
        Some(("é".to_string(), "ü".to_string(), Some("ö".to_string())))
    );
    for key in ["", "+", "name[l]", "+name", "+n(a)[l]", "+n)[l]", "+n[l](v", "+n[l]x", "+n[l)", "+n[(v)"] {
        assert_eq!(Yaml::parse_mx_key(key), None, "{}", key);
    }
}

#[test]
fn decorated_members() {
    let value = parse("+a[One](x):\n  k: v\n  __name: old\n+b[Two]: plain\n+a[Three]: 3\n").unwrap();
    assert_eq!(
        value.to_mx().to_string(),
        "{\"+a\":{\"__content\":3,\"__name\":\"Three\"},\"+b\":{\"__content\":\"plain\",\"__name\":\"Two\"}}"
    );
    let value = parse("+a[One](x):\n  k: v\n  __name: old\n").unwrap();
    assert_eq!(
        value.to_mx().to_string(),
        "{\"+a\":{\"k\":\"v\",\"__name\":\"One\",\"__value\":\"x\"}}"
    );
}

#[test]
fn what_is_not_decorated_is_reported() {
    assert_eq!(
        Yaml::make_mx_error("m", "c").to_string(),
        "{\"+error\":{\"__name\":\"m\",\"__value\":\"c\"}}"
    );
    assert_eq!(
        parse("- a").unwrap().to_mx().to_string(),
        "{\"+error\":{\"__name\":\"Top level value must be an object\",\"__value\":\"- a\\n\"}}"
    );
    assert_eq!(
        parse("+a[b]: 1\nc: 2\nd: 3").unwrap().to_mx().to_string(),
        "{\"+error\":{\"__name\":\"Key 'c' does not match expected format +name[label](value)\",\"__value\":\"+a[b]: 1\\nc: 2\\nd: 3\\n\"}}"
    );
    assert_eq!(
        s("+shop[Your Online Shop]()").to_mx().to_string(),
        "{\"+error\":{\"__name\":\"Top level value must be an object\",\"__value\":\"+shop[Your Online Shop]()\"}}"
    );
}

#[test]
fn values_of_words_are_read_back_as_printed() {
    let leafs = vec![Yaml::Int(0), Yaml::Int(-7), Yaml::Int(i64::MIN), Yaml::Bool(true), Yaml::Bool(false), s("word"), s("-x"), s("a-b_c"), s("9lives"), s("__value")];
    for leaf in &leafs {
        assert_eq!(&parse(&leaf.to_string()).unwrap(), leaf);
    }
    let flat_sequence = Yaml::Sequence(leafs.clone());
    let flat_mapping = map(vec![
        (s("a"), Yaml::Int(1)),
        (Yaml::Int(2), s("b")),
        (Yaml::Bool(true), Yaml::Bool(false)),
        (s("-k"), s("-v")),
        (s("a"), s("again")),
    ]);
    let nested = map(vec![
        (s("list"), flat_sequence.clone()),
        (s("map"), flat_mapping.clone()),
        (
            s("deep"),
            Yaml::Sequence(vec![
                flat_sequence.clone(),
                flat_mapping.clone(),
                s("leaf"),
                Yaml::Sequence(vec![Yaml::Sequence(vec![map(vec![(s("k"), Yaml::Sequence(vec![Yaml::Int(1)]))])])]),
                map(vec![(s("x"), map(vec![(s("y"), map(vec![(s("z"), Yaml::Int(0))]))])), (s("w"), Yaml::Int(1))]),
            ]),
        ),
        (s("last"), s("one")),
    ]);
    for value in [flat_sequence, flat_mapping, nested.clone(), Yaml::Sequence(vec![nested])] {
        let printed = value.to_string();
        assert_eq!(parse(&printed).unwrap(), value, "{}", printed);
    }
}

#[test]
fn phrases_floats_and_tags_are_read_back_as_printed() {
    let tagged_leaf = map(vec![(s("__type"), s("int")), (s("__value"), Yaml::Int(5))]);
    let tag_alone = map(vec![(s("__type"), s("custom"))]);
    let tagged_fields = map(vec![
        (s("__type"), s("person")),
        (s("first name"), s("John Q. Public")),
        (s("height"), Yaml::Float("1.80")),
        (s("pet"), map(vec![(s("__type"), s("cat")), (s("__value"), s("Tom, the cat"))])),
        (s("tags"), Yaml::Sequence(vec![s("a b"), Yaml::Float("-2.5e3"), s("x/y.z")])),
    ]);
    let value = map(vec![
        (s("price"), Yaml::Float("19.99")),
        (s("full name"), s("Build project")),
        (s("count"), tagged_leaf.clone()),
        (s("empty"), tag_alone),
        (s("who"), tagged_fields.clone()),
        (s("last"), Yaml::Bool(false)),
    ]);
    for value in [
        Yaml::Float("3.14"),
        s("plain text with blanks"),
        s("http://example.com:80/a?b=c"),
        map(vec![(s("at:home"), s("2024-06-01T12:00:00Z")), (s("a b"), s("c:d"))]),
        value,
        tagged_leaf,
        tagged_fields,
    ] {
        let printed = value.to_string();
        assert_eq!(parse(&printed).unwrap(), value, "{}", printed);
    }
}

#[test]
fn values_that_are_not_read_back_as_printed() {
    let text = Yaml::String("line".to_string());
    assert_eq!(parse(&text.to_string()).unwrap(), s("line"));
    let block = parse("k: |\n  a\n  b\n").unwrap();
    assert_eq!(block.to_string(), "k: a\nb\n\n");
    assert!(parse(&block.to_string()).is_err());
    let tag_alone = map(vec![(s("__type"), s("t"))]);
    assert!(parse(&tag_alone.to_string()).is_err());
    let quoted = parse("\"a: b\"").unwrap();
    assert_eq!(quoted, s("a: b"));
    assert_eq!(parse(&quoted.to_string()).unwrap(), map(vec![(s("a"), s("b"))]));
    let empty = Yaml::Sequence(vec![]);
    assert!(parse(&empty.to_string()).is_err());
    let number_text = s("12");
    assert_eq!(parse(&number_text.to_string()).unwrap(), Yaml::Int(12));
}
