use mx_yaml::{parse, Entry, Yaml};

fn s(text: &str) -> Yaml<'_> {
    Yaml::Scalar(text)
}

fn seq<'a>(items: Vec<Yaml<'a>>) -> Yaml<'a> {
    Yaml::Sequence(items)
}

fn strs<'a>(items: Vec<&'a str>) -> Yaml<'a> {
    Yaml::Sequence(items.into_iter().map(Yaml::Scalar).collect())
}

fn map<'a>(entries: Vec<(Yaml<'a>, Yaml<'a>)>) -> Yaml<'a> {
    Yaml::Mapping(entries.into_iter().map(|(k, v)| Entry::new(k, v)).collect())
}

#[test]
fn simple_block_sequence() {
    let input = r#"
- a
- sequence
- of
- yaml
-   nodes
- "in"
- 'block'
- ' form '"#;
    assert_eq!(
        parse(input).unwrap(),
        strs(vec!["a", "sequence", "of", "yaml", "nodes", "in", "block", " form "])
    );
}

#[test]
fn block_sequence_flow_seq() {
    let input = r#"
- a
- sequence
- with
-       [ a, sequence, "as ", 'a', node  ]
"#;
    assert_eq!(
        parse(input).unwrap(),
        seq(vec![
            s("a"),
            s("sequence"),
            s("with"),
            strs(vec!["a", "sequence", "as ", "a", "node"])
        ])
    );
}

#[test]
fn block_sequence_flow_map() {
    let input = r#"
- a
- block
- sequence
- '  "with" '
- { a : "flow", mapping : ' as ', a : " 'node' "}
"#;
    assert_eq!(
        parse(input).unwrap(),
        seq(vec![
            s("a"),
            s("block"),
            s("sequence"),
            s("  \"with\" "),
            map(vec![
                (s("a"), s("flow")),
                (s("mapping"), s(" as ")),
                (s("a"), s(" 'node' "))
            ])
        ])
    );
}

#[test]
fn block_sequence_nested() {
    let input = r#"
-
  - " a "
  - ' nested'
  - ' " block  " '
  - sequence
-
  - with
  - two
  - "'e l e m e n t s'"
"#;
    assert_eq!(
        parse(input).unwrap(),
        seq(vec![
            strs(vec![" a ", " nested", " \" block  \" ", "sequence"]),
            strs(vec!["with", "two", "'e l e m e n t s'"])
        ])
    );
}

#[test]
fn super_simple_block_sequence_nested() {
    let input = r#"
-
  - " a "
  - ' nested'
"#;
    assert_eq!(parse(input).unwrap(), seq(vec![strs(vec![" a ", " nested"])]));
}

#[test]
fn block_sequence_multiple_nested() {
    let input = r##"
-
    - "a"
    - "nested"
    - block
    -
        - sequence
        - with
    - lots
    -
        - of
        - different
-
    - indent
    - levels
    -
        - [with, a, flow, sequence for good measure]
- "' the '"
- end
"##;
    assert_eq!(
        parse(input).unwrap(),
        seq(vec![
            seq(vec![
                s("a"),
                s("nested"),
                s("block"),
                strs(vec!["sequence", "with"]),
                s("lots"),
                strs(vec!["of", "different"])
            ]),
            seq(vec![
                s("indent"),
                s("levels"),
                seq(vec![strs(vec!["with", "a", "flow", "sequence for good measure"])])
            ]),
            s("' the '"),
            s("end")
        ])
    );
}

#[test]
fn super_simple() {
    let input = r#"
key: value
key2: value2
"#;
    assert_eq!(
        parse(input).unwrap(),
        map(vec![(s("key"), s("value")), (s("key2"), s("value2"))])
    );
}

#[test]
fn super_simple_spaced_colon() {
    let input = r#"
key : value
key2 : value2
"#;
    assert_eq!(
        parse(input).unwrap(),
        map(vec![(s("key"), s("value")), (s("key2"), s("value2"))])
    );
}

#[test]
fn block_mapping_simple() {
    let input = r#"
key: value
key2: value2
and: another
now with: "some quotes"
'and': "a 'few' more"
"#;
    assert_eq!(
        parse(input).unwrap(),
        map(vec![
            (s("key"), s("value")),
            (s("key2"), s("value2")),
            (s("and"), s("another")),
            (s("now with"), s("some quotes")),
            (s("and"), s("a 'few' more"))
        ])
    );
}

#[test]
fn block_mapping_flow() {
    let input = r#"
key: {the: " value ", 'i s': a, flow: mapping}
mind: blown
wait: [it, works, with, flow, sequences too]
[now, how, about, one, with, the, flow, mapping, as]: a key
"#;
    assert_eq!(
        parse(input).unwrap(),
        map(vec![
            (
                s("key"),
                map(vec![
                    (s("the"), s(" value ")),
                    (s("i s"), s("a")),
                    (s("flow"), s("mapping"))
                ])
            ),
            (s("mind"), s("blown")),
            (s("wait"), strs(vec!["it", "works", "with", "flow", "sequences too"])),
            (
                strs(vec!["now", "how", "about", "one", "with", "the", "flow", "mapping", "as"]),
                s("a key")
            )
        ])
    );
}

#[test]
fn block_mapping_flow_spaced_colon() {
    let input = r#"
key : {the : " value ", 'i s' : a, flow: mapping}
mind : blown
wait : [it, works, with, flow, sequences too]
[now, how, about, one, with, the, flow, mapping, as] : a key
"#;
    assert_eq!(
        parse(input).unwrap(),
        map(vec![
            (
                s("key"),
                map(vec![
                    (s("the"), s(" value ")),
                    (s("i s"), s("a")),
                    (s("flow"), s("mapping"))
                ])
            ),
            (s("mind"), s("blown")),
            (s("wait"), strs(vec!["it", "works", "with", "flow", "sequences too"])),
            (
                strs(vec!["now", "how", "about", "one", "with", "the", "flow", "mapping", "as"]),
                s("a key")
            )
        ])
    );
}

#[test]
fn block_mapping_nested_blocks() {
    let input = r#"
key:
  the: value
  is:
    nested: mappings
    wow:
      - with a block seq
      - too
and: done
"#;
    assert_eq!(
        parse(input).unwrap(),
        map(vec![
            (
                s("key"),
                map(vec![
                    (s("the"), s("value")),
                    (
                        s("is"),
                        map(vec![
                            (s("nested"), s("mappings")),
                            (s("wow"), strs(vec!["with a block seq", "too"]))
                        ])
                    )
                ])
            ),
            (s("and"), s("done"))
        ])
    );
}

#[test]
fn block_mapping_nested_blocks_spaced_colon() {
    let input = "\nkey : \n  the : value\n  is : \n    nested : mappings\n    wow : \n      - with a block seq\n      - too\nand : done\n";
    assert_eq!(
        parse(input).unwrap(),
        map(vec![
            (
                s("key"),
                map(vec![
                    (s("the"), s("value")),
                    (
                        s("is"),
                        map(vec![
                            (s("nested"), s("mappings")),
                            (s("wow"), strs(vec!["with a block seq", "too"]))
                        ])
                    )
                ])
            ),
            (s("and"), s("done"))
        ])
    );
}
