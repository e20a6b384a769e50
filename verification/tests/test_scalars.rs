use mx_yaml::{parse, Yaml};

fn s(text: &str) -> Yaml<'_> {
    Yaml::Scalar(text)
}

#[test]
fn double_quote_scalar_whitespace() {
    assert_eq!(
        parse(r#""a scalar value with whitespace""#).unwrap(),
        s("a scalar value with whitespace")
    );
}

#[test]
fn double_quote_scalar_no_whitespace() {
    assert_eq!(
        parse(r#""a_scalarvaluewithout_whitespace""#).unwrap(),
        s("a_scalarvaluewithout_whitespace")
    );
}

#[test]
fn single_quote_scalar_whitespace() {
    assert_eq!(
        parse(r#"'a scalar value with whitespace'"#).unwrap(),
        s("a scalar value with whitespace")
    );
}

#[test]
fn single_quote_scalar_no_whitespace() {
    assert_eq!(
        parse(r#"'ascalarvalue_without_whitespace'"#).unwrap(),
        s("ascalarvalue_without_whitespace")
    );
}

#[test]
fn no_quote_scalar_whitespace() {
    assert_eq!(
        parse("an unquoted scalar value with whitespace").unwrap(),
        s("an unquoted scalar value with whitespace")
    );
}

#[test]
fn no_quote_scalar_no_whitespace() {
    assert_eq!(
        parse("anunquoted_scalar_value_withoutwhitespace").unwrap(),
        s("anunquoted_scalar_value_withoutwhitespace")
    );
}

#[test]
fn test_scalars_test_simple_literal_block_scalar() {
    let yaml = r#"key: |
    line1
    line2
"#;
    let result = parse(yaml).unwrap();
    if let Yaml::Mapping(entries) = result {
        assert_eq!(entries.len(), 1);
        assert_eq!(entries[0].key, Yaml::Scalar("key"));
        if let Yaml::String(s) = &entries[0].value {
            assert_eq!(s, "line1\nline2\n");
        } else {
            panic!("Expected String, got {:?}", entries[0].value);
        }
    } else {
        panic!("Expected mapping");
    }
}

#[test]
fn test_scalars_test_literal_block_scalar_strip() {
    let yaml = r#"key: |-
    line1
    line2
"#;
    let result = parse(yaml).unwrap();
    if let Yaml::Mapping(entries) = result {
        if let Yaml::String(s) = &entries[0].value {
            assert_eq!(s, "line1\nline2");
        } else {
            panic!("Expected String");
        }
    } else {
        panic!("Expected mapping");
    }
}

#[test]
fn test_scalars_test_literal_block_in_complex_yaml() {
    let yaml = r#"
+setup[Magix RTE Settings](test://prelude/settings):
    title: Magix RTE Settings
    authors[]:
      - !mod +@[Me](shawnx)
      - !mod +@[Boby at Unix Group](boby:unix.org)

    signature:
        pubkey: |
            MCowBQYDK2VwAyEAGb9F2CMlxqLDB3rrzBVwC7aB...

    created: 2024-06-01T12:00:00Z
    modified: 2024-06-01T12:00:00Z
"#;
    let result = parse(yaml);
    assert!(result.is_ok(), "Failed to parse: {:?}", result.err());
}

#[test]
fn tests_test_simple_literal_block_scalar() {
    let yaml = r#"key: |
    line1
    line2
"#;
    let result = parse(yaml).unwrap();
    if let Yaml::Mapping(entries) = result {
        assert_eq!(entries.len(), 1);
        assert_eq!(entries[0].key, Yaml::Scalar("key"));
        if let Yaml::String(s) = &entries[0].value {
            assert_eq!(s, "line1\nline2\n");
        } else {
            panic!("Expected String, got {:?}", entries[0].value);
        }
    } else {
        panic!("Expected mapping");
    }
}

#[test]
fn tests_test_literal_block_scalar_strip() {
    let yaml = r#"key: |-
    line1
    line2
"#;
    let result = parse(yaml).unwrap();
    if let Yaml::Mapping(entries) = result {
        if let Yaml::String(s) = &entries[0].value {
            assert_eq!(s, "line1\nline2");
        } else {
            panic!("Expected String");
        }
    } else {
        panic!("Expected mapping");
    }
}

#[test]
fn tests_test_literal_block_in_complex_yaml() {
    let yaml = r#"
+setup[Magix RTE Settings](magix://prelude/settings):
    title: Magix RTE Settings
    authors[]:
      - !mod +@[Me](shawnx)
      - !mod +@[Boby at Unix Group](boby:unix.org)

    signature:
        pubkey: |
            MCowBQYDK2VwAyEAGb9F2CMlxqLDB3rrzBVwC7aB...

    created: 2024-06-01T12:00:00Z
    modified: 2024-06-01T12:00:00Z
"#;
    let result = parse(yaml);
    assert!(result.is_ok(), "Failed to parse: {:?}", result.err());
}
