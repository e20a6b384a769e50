use mx_yaml::{parse, Entry, Yaml, YamlParseError};

fn s(text: &str) -> Yaml<'_> {
    Yaml::Scalar(text)
}

fn seq<'a>(items: Vec<Yaml<'a>>) -> Yaml<'a> {
    Yaml::Sequence(items)
}

fn strs<'a>(items: Vec<&'a str>) -> Yaml<'a> {
    Yaml::Sequence(items.into_iter().map(Yaml::Scalar).collect())
}

fn map<'a>(entries: Vec<(Yaml<'a>, Yaml<'a>)>) -> Yaml<'a> {
    Yaml::Mapping(entries.into_iter().map(|(k, v)| Entry::new(k, v)).collect())
}

#[test]
fn input_with_comments() {
    let input = r#"
key: #comment 1
   - value line 1
   #comment 2
   - value line 2
   #comment 3
   - value line 3
"#;
    assert_eq!(
        parse(input).unwrap(),
        map(vec![(
            s("key"),
            strs(vec!["value line 1", "value line 2", "value line 3"])
        )])
    );
}

#[test]
fn scalar_with_pound_in_middle() {
    let input = r#"
- foo#bar
- "baz#bax"
- 'quux#xyzzy'
"#;
    assert_eq!(parse(input).unwrap(), strs(vec!["foo", "baz#bax", "quux#xyzzy"]));
}

#[test]
fn input_with_error() {
    let input = r#"
{key: value, missing : }
"#;
    assert_eq!(
        parse(input).unwrap_err(),
        YamlParseError {
            line: 2,
            col: 25,
            msg: Some(String::from(r#"unexpected symbol '}'"#)),
            source: None
        }
    );
}

#[test]
fn error_msg() {
    let input = r#"
{key: value, missing : }
"#;
    assert_eq!(
        parse(input).unwrap_err().to_string(),
        r#"error occurred parsing the input at line 2, column 25 : unexpected symbol '}'"#
    );
}

#[test]
fn nested_seq_in_complex_mapping_with_empty_line() {
    let input = r#"
+test.settings.states[test-system-states-demo]():
  opened_apps:
    - Magix-Introduction.md
    - Ex1-Personal-Productivity.md
    - Ex2-Teaching-Aids.md

  pinned_apps:
    - name: Magix Docs
      icon: book
      command: |
        { open } = import('test');
        open("Magix-Introduction.md");
"#;
    assert_eq!(
        parse(input).unwrap(),
        map(vec![(
            s("+test.settings.states[test-system-states-demo]()"),
            map(vec![
                (
                    s("opened_apps"),
                    strs(vec![
                        "Magix-Introduction.md",
                        "Ex1-Personal-Productivity.md",
                        "Ex2-Teaching-Aids.md"
                    ])
                ),
                (
                    s("pinned_apps"),
                    seq(vec![map(vec![
                        (s("name"), s("Magix Docs")),
                        (s("icon"), s("book")),
                        (
                            s("command"),
                            Yaml::String(
                                "{ open } = import('test');\nopen(\"Magix-Introduction.md\");\n"
                                    .to_string()
                            )
                        )
                    ])])
                )
            ])
        )])
    );
}

#[test]
fn input_with_doc_start() {
    let input = r"
---
- this
- is
- a
-
  sequence: of
  values: in
  a: yaml file
";
    assert_eq!(
        parse(input).unwrap(),
        seq(vec![
            s("this"),
            s("is"),
            s("a"),
            map(vec![
                (s("sequence"), s("of")),
                (s("values"), s("in")),
                (s("a"), s("yaml file"))
            ])
        ])
    );
}

#[test]
fn input_with_doc_start_and_blank_after_dash() {
    let input = "\n---\n- this\n- is\n- a\n- \n  sequence : of\n  values : in\n  a : yaml file\n";
    assert_eq!(
        parse(input).unwrap(),
        seq(vec![
            s("this"),
            s("is"),
            s("a"),
            map(vec![
                (s("sequence"), s("of")),
                (s("values"), s("in")),
                (s("a"), s("yaml file"))
            ])
        ])
    );
}

#[test]
fn input_with_seq_and_dash() {
    let input = r"
---
- this
- is
- a
- valid
- minimal-yaml
- sequence
";
    assert_eq!(
        parse(input).unwrap(),
        strs(vec!["this", "is", "a", "valid", "minimal-yaml", "sequence"])
    );
}

#[test]
fn odd_structure() {
    let input = r"
this is:
 - totally
 - valid
 - input: to the parser
";
    assert_eq!(
        parse(input).unwrap(),
        map(vec![(
            s("this is"),
            seq(vec![
                s("totally"),
                s("valid"),
                map(vec![(s("input"), s("to the parser"))])
            ])
        )])
    );
}

#[test]
fn readme_example() {
    let input = r"
[this, is]:
 -
  - totally
  - valid
 - input
 - {to: the parser}
 ";
    assert_eq!(
        parse(input).unwrap(),
        map(vec![(
            strs(vec!["this", "is"]),
            seq(vec![
                strs(vec!["totally", "valid"]),
                s("input"),
                map(vec![(s("to"), s("the parser"))])
            ])
        )])
    );
}

#[test]
fn block_mapping_missing_value() {
    let input = r"
a: block
mapping: missing
a value for this key:

";
    assert_eq!(
        parse(input).unwrap_err(),
        YamlParseError {
            line: 5,
            col: 1,
            msg: Some("unexpected end of input".into()),
            source: None
        }
    );
}

#[test]
fn input_with_indicators() {
    let input = r"
stuff:
    - this::thing::with::colons::and::all-these-other-indicator-characters-:used:-in--an:unquoted:::::::string

";
    assert_eq!(
        parse(input).unwrap(),
        map(vec![(
            s("stuff"),
            strs(vec![
                "this::thing::with::colons::and::all-these-other-indicator-characters-:used:-in--an:unquoted:::::::string"
            ])
        )])
    );
}

#[test]
fn issue_13a() {
    let input = r"
foo:
- baz
bar: bax
";
    assert_eq!(
        parse(input).unwrap(),
        map(vec![(s("foo"), strs(vec!["baz"])), (s("bar"), s("bax"))])
    );
}

#[test]
fn issue_13b() {
    let input = r"
value: {x: -0}
";
    assert_eq!(
        parse(input).unwrap(),
        map(vec![(s("value"), map(vec![(s("x"), Yaml::Int(0))]))])
    );
}

#[test]
fn malformed_seq() {
    let input = r"
- a
-b
";
    assert!(parse(input).is_err());
}

#[test]
fn issue_14() {
    assert_eq!(parse(r"a: -1").unwrap(), map(vec![(s("a"), Yaml::Int(-1))]));
}

#[test]
fn issue_15a() {
    assert_eq!(parse(r"a: foo[0]").unwrap(), map(vec![(s("a"), s("foo[0]"))]));
}

#[test]
fn issue_15b() {
    assert_eq!(parse(r"a: a - a").unwrap(), map(vec![(s("a"), s("a - a"))]));
}

#[test]
fn test_colon_inside_brackets_in_key() {
    let yaml = r#"
+test.banner[Magix: Supercharge LLMs](http://example.com/bg.jpg):
  offset: 100
"#;
    let parsed = parse(yaml).unwrap();
    let expected = map(vec![(
        s("+test.banner[Magix: Supercharge LLMs](http://example.com/bg.jpg)"),
        map(vec![(s("offset"), Yaml::Int(100))]),
    )]);
    assert_eq!(parsed, expected);
}

#[test]
fn test_colon_inside_brackets_multiple() {
    let yaml = r#"
+test.images[Like building furniture: not 3D-printing: use pre-made parts.]():
  images:
    - http://example.com/img0.png
"#;
    let parsed = parse(yaml).unwrap();
    let expected = map(vec![(
        s("+test.images[Like building furniture: not 3D-printing: use pre-made parts.]()"),
        map(vec![(s("images"), strs(vec!["http://example.com/img0.png"]))]),
    )]);
    assert_eq!(parsed, expected);
}

#[test]
fn test_utf8_chinese_in_block_scalar() {
    let yaml = r#"info: |
  请输入简短的描述
  最多200字
"#;
    let parsed = parse(yaml).unwrap();
    if let Yaml::Mapping(entries) = parsed {
        assert_eq!(entries.len(), 1);
        if let Yaml::String(s) = &entries[0].value {
            assert!(s.contains("请输入简短的描述"), "Chinese text not preserved: {}", s);
            assert!(s.contains("最多200字"), "Chinese text not preserved: {}", s);
        } else {
            panic!("Expected String for block scalar");
        }
    } else {
        panic!("Expected mapping");
    }
}

#[test]
fn test_utf8_mixed_content_block_scalar() {
    let yaml = r#"description: |
  Hello 世界
  Price: ¥100
  Temperature: 25°C
"#;
    let parsed = parse(yaml).unwrap();
    if let Yaml::Mapping(entries) = parsed {
        if let Yaml::String(s) = &entries[0].value {
            assert!(s.contains("Hello 世界"), "Mixed content not preserved: {}", s);
            assert!(s.contains("¥100"), "Yen symbol not preserved: {}", s);
            assert!(s.contains("25°C"), "Degree symbol not preserved: {}", s);
        } else {
            panic!("Expected String");
        }
    } else {
        panic!("Expected mapping");
    }
}
