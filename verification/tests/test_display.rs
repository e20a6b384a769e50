use mx_yaml::{parse, Entry, Yaml};

fn s(text: &str) -> Yaml<'_> {
    Yaml::Scalar(text)
}

fn strs<'a>(items: Vec<&'a str>) -> Yaml<'a> {
    Yaml::Sequence(items.into_iter().map(Yaml::Scalar).collect())
}

fn map<'a>(entries: Vec<(Yaml<'a>, Yaml<'a>)>) -> Yaml<'a> {
    Yaml::Mapping(entries.into_iter().map(|(k, v)| Entry::new(k, v)).collect())
}

#[test]
fn test_display_test_round_trip_basic_literal_eq() {
    let input = r#"foo: bar
baz:
  - qux
  - quux
  - corge: grault
    garply: waldo
      - fred
      - plugh
      - xyzzy
    : thud
"#;
    assert_eq!(parse(input).unwrap().to_string(), String::from(input))
}

#[test]
fn test_display_test_round_trip_basic_structural_eq() {
    let input = r#"
key:
  the: value
  is:
    nested: mappings
    wow:
      - with a block seq
      - too
and: done
"#;
    assert_eq!(
        parse(&parse(input).unwrap().to_string()).unwrap(),
        map(vec![
            (
                s("key"),
                map(vec![
                    (s("the"), s("value")),
                    (
                        s("is"),
                        map(vec![
                            (s("nested"), s("mappings")),
                            (s("wow"), strs(vec!["with a block seq", "too"]))
                        ])
                    )
                ])
            ),
            (s("and"), s("done"))
        ])
    )
}

#[test]
fn tests_test_round_trip_basic_structural_eq() {
    let input = r#"
key :
  the : value
  is :
    nested : mappings
    wow :
      - with a block seq
      - too
and : done
"#;
    assert_eq!(
        parse(&parse(input).unwrap().to_string()).unwrap(),
        map(vec![
            (
                s("key"),
                map(vec![
                    (s("the"), s("value")),
                    (
                        s("is"),
                        map(vec![
                            (s("nested"), s("mappings")),
                            (s("wow"), strs(vec!["with a block seq", "too"]))
                        ])
                    )
                ])
            ),
            (s("and"), s("done"))
        ])
    )
}

#[test]
fn test_print_yaml_config_file() {
    let yaml = r#"server:
  host: localhost
  port: 8080
database:
  connection:
    host: db.example.com
    port: 5432
  credentials:
    username: admin
    password: secret
"#;
    let parsed = parse(yaml).unwrap();
    let printed = parsed.to_string();
    assert_eq!(printed, yaml);
}

#[test]
fn test_parse_sequence_after_nested_sequence_in_mapping() {
    let yaml = r#"
tasks:
  - name: Build project
    deps:
      - compile
      - lint
  - name: Run tests
"#;
    let parsed = parse(yaml).unwrap();
    let expected = map(vec![(
        s("tasks"),
        Yaml::Sequence(vec![
            map(vec![
                (s("name"), s("Build project")),
                (s("deps"), strs(vec!["compile", "lint"])),
            ]),
            map(vec![(s("name"), s("Run tests"))]),
        ]),
    )]);
    assert_eq!(parsed, expected);
}

#[test]
fn test_print_yaml_task_list() {
    let yaml = r#"tasks:
  - name: Build project
    command: cargo build
    deps:
      - compile
      - lint
  - name: Run tests
    command: cargo test
"#;
    let parsed = parse(yaml).unwrap();
    let printed = parsed.to_string();
    assert_eq!(printed, yaml);
}

#[test]
fn test_print_type_as_tag_with_value() {
    let yaml = map(vec![(
        s("data"),
        map(vec![(s("__type"), s("str")), (s("__value"), s("hello"))]),
    )]);
    assert_eq!(yaml.to_string(), "data: !str hello\n");
}

#[test]
fn test_print_type_as_tag_with_fields() {
    let yaml = map(vec![(
        s("user"),
        map(vec![(s("__type"), s("person")), (s("name"), s("John"))]),
    )]);
    assert_eq!(yaml.to_string(), "user: !person\n  name: John\n");
}

#[test]
fn test_print_yaml_with_tags_round_trip() {
    let yaml = r#"config:
  database: !connection
    host: localhost
    port: !int { __name: "port", __value: 5432 }
  cache: !redis enabled
"#;
    let expected = r#"config:
  database: !connection
    host: localhost
    port: !int
      __name: port
      __value: 5432
  cache: !redis enabled
"#;
    let parsed = parse(yaml).unwrap();
    let printed = parsed.to_string();
    assert_eq!(printed, expected);
}

#[test]
fn test_tag_with_value_round_trip() {
    let yaml = "name: !string John\n";
    let parsed = parse(yaml).unwrap();
    let printed = parsed.to_string();
    assert_eq!(printed, yaml);
}

#[test]
fn test_deeply_nested_tags_round_trip() {
    let yaml = r#"root: !outer
  level1: !middle
    level2: !inner
      value: deep
"#;
    let parsed = parse(yaml).unwrap();
    let printed = parsed.to_string();
    assert_eq!(printed, yaml);
}

#[test]
fn test_multiple_sibling_tags_round_trip() {
    let yaml = r#"data:
  name: !string Alice
  age: !custom {}
  active: !bool true
"#;
    let parsed = parse(yaml).unwrap();
    let printed = parsed.to_string();
    assert_eq!(printed, yaml);
}
