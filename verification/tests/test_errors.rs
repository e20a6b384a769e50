use mx_yaml::context::{ParseContext, ParseContextKind};
use mx_yaml::cursor::Parser;
use mx_yaml::{parse, parse_with_depth, Yaml, YamlParseError};

fn message(input: &str) -> String {
    parse(input).unwrap_err().msg.unwrap()
}

fn position(input: &str) -> (usize, usize) {
    let error = parse(input).unwrap_err();
    (error.line, error.col)
}

#[test]
fn empty_input_is_refused_at_line_zero() {
    assert_eq!(
        parse("").unwrap_err(),
        YamlParseError {
            line: 0,
            col: 0,
            msg: Some("expected input".to_string()),
            source: None
        }
    );
}

#[test]
fn stray_closing_brace() {
    assert_eq!(message("}"), "unexpected symbol '}'");
    assert_eq!(position("}"), (1, 2));
}

#[test]
fn stray_closing_bracket() {
    assert_eq!(message("a: ]"), "unexpected symbol ']'");
    assert_eq!(position("a: ]"), (1, 5));
}

#[test]
fn byte_that_begins_nothing() {
    assert_eq!(message("@"), "failed to parse at top level");
    assert_eq!(message("a: *b"), "failed to parse at top level");
}

#[test]
fn unterminated_double_quote() {
    assert_eq!(message("\"abc"), "unexpected end of input; expected '\"'");
}

#[test]
fn unterminated_single_quote() {
    assert_eq!(message("'abc"), "unexpected end of input; expected '''");
}

#[test]
fn quote_at_the_end_of_the_input() {
    assert_eq!(message("a: \""), "unexpected end of input");
}

#[test]
fn tag_without_a_name() {
    assert_eq!(message("! value"), "expected tag name after '!'");
}

#[test]
fn tag_without_a_value() {
    assert_eq!(message("!int"), "unexpected end of input");
    assert_eq!(message("k: !t<a>"), "unexpected end of input");
    assert_eq!(message("!"), "unexpected end of input");
    assert_eq!(
        parse("!a b").unwrap(),
        Yaml::Mapping(vec![
            mx_yaml::Entry::new(Yaml::Scalar("__type"), Yaml::Scalar("a")),
            mx_yaml::Entry::new(Yaml::Scalar("__value"), Yaml::Scalar("b"))
        ])
    );
}

#[test]
fn tag_with_an_open_angle_bracket() {
    assert_eq!(message("!seq<string [a, b]"), "unclosed '<' in tag name");
    assert_eq!(message("!seq<string"), "unclosed '<' in tag name");
}

#[test]
fn tag_with_a_stray_angle_bracket() {
    assert_eq!(message("!seq> [a, b]"), "unmatched '>' in tag name");
    assert_eq!(position("!seq> [a, b]"), (1, 6));
}

#[test]
fn block_scalar_indicator_without_line_break() {
    assert_eq!(
        message("key: | text\n"),
        "expected newline after block scalar indicator"
    );
}

#[test]
fn block_scalar_indicator_at_the_end_of_the_input() {
    assert_eq!(message("key: |"), "unexpected end of input");
}

#[test]
fn flow_mapping_without_colon() {
    assert_eq!(message("{a b}"), "failed to parse flow mapping");
}

#[test]
fn flow_mapping_that_never_closes() {
    assert_eq!(message("{a: b,"), "unexpected end of input");
}

#[test]
fn flow_sequence_with_a_stray_colon() {
    assert_eq!(message("[a : b]"), "failed to parse flow sequence");
}

#[test]
fn flow_sequence_that_never_closes() {
    assert_eq!(message("[a,"), "unexpected end of input");
    assert_eq!(message("[ "), "unexpected end of input");
    assert_eq!(message("[#"), "unexpected end of input");
}

#[test]
fn block_sequence_inside_flow_sequence() {
    assert_eq!(
        message("[- a]"),
        "block collections cannot be values in flow collections"
    );
    assert_eq!(position("[- a]"), (1, 3));
}

#[test]
fn block_mapping_inside_flow_sequence() {
    assert_eq!(
        message("[[a]: b]"),
        "block collections cannot be values in flow collections"
    );
}

#[test]
fn block_mapping_line_without_colon() {
    assert_eq!(message("a: b\nc d\n"), "failed to parse block mapping");
}

#[test]
fn dash_without_blank_behind_it() {
    assert_eq!(message("- a\n-b\n"), "unexpected '-'");
    assert_eq!(position("- a\n-b\n"), (2, 2));
}

#[test]
fn dash_before_a_flow_indicator() {
    assert_eq!(message("[-, a]"), "unexpected '-'");
}

#[test]
fn line_that_begins_no_item() {
    assert_eq!(message("- a\n  b\n"), "expected sequence item");
}

#[test]
fn comment_at_the_end_of_the_input() {
    assert_eq!(message("#"), "unexpected end of input");
}

#[test]
fn blanks_before_a_single_last_byte() {
    assert_eq!(message(" a"), "unexpected end of input");
}

#[test]
fn nesting_beyond_the_limit() {
    assert_eq!(
        parse_with_depth("[[a]]", 3).unwrap(),
        Yaml::Sequence(vec![Yaml::Sequence(vec![Yaml::Scalar("a")])])
    );
    assert_eq!(parse_with_depth("a", 1).unwrap(), Yaml::Scalar("a"));
    let error = parse_with_depth("[[a]]", 2).unwrap_err();
    assert_eq!(error.msg.unwrap(), "maximum nesting depth exceeded");
    let error = parse_with_depth("a", 0).unwrap_err();
    assert_eq!(error.msg.unwrap(), "maximum nesting depth exceeded");
    assert_eq!((error.line, error.col), (1, 2));
}

#[test]
fn deep_nesting_within_the_default_limit() {
    let mut text = String::new();
    for _ in 0..255 {
        text.push('[');
    }
    text.push('x');
    for _ in 0..255 {
        text.push(']');
    }
    assert!(parse(&text).is_ok());
    let mut text = String::new();
    for _ in 0..256 {
        text.push('[');
    }
    text.push('x');
    for _ in 0..256 {
        text.push(']');
    }
    assert_eq!(
        parse(&text).unwrap_err().msg.unwrap(),
        "maximum nesting depth exceeded"
    );
}

#[test]
fn scalar_cut_inside_a_character() {
    assert_eq!(
        message("#é"),
        "scalar does not lie on character boundaries"
    );
}

#[test]
fn error_text_names_line_and_column() {
    let error = parse("a: b\nc: }\n").unwrap_err();
    assert_eq!((error.line, error.col), (2, 5));
    assert_eq!(
        error.to_string(),
        "error occurred parsing the input at line 2, column 5 : unexpected symbol '}'"
    );
}

#[test]
fn error_on_a_last_line_without_line_break() {
    let error = parse("a: b\n}x").unwrap_err();
    assert_eq!((error.line, error.col), (2, 2));
}

#[test]
fn error_position_with_carriage_returns() {
    let error = parse("a: b\r\nc: }\r\n").unwrap_err();
    assert_eq!((error.line, error.col), (2, 5));
}

#[test]
fn a_block_context_cannot_open_inside_a_flow_context() {
    let mut parser = Parser::new("a").unwrap();
    parser.start_context(ParseContextKind::Flow).unwrap();
    assert_eq!(parser.context(), Some(ParseContext::FlowIn));
    let error = parser.start_context(ParseContextKind::Block).unwrap_err();
    assert_eq!(
        error.msg.unwrap(),
        "block collections cannot be values in flow collections"
    );
    assert_eq!(parser.context(), Some(ParseContext::FlowIn));
}

#[test]
fn contexts_open_by_kind_and_surroundings() {
    let mut parser = Parser::new("a").unwrap();
    assert_eq!(parser.context(), None);
    parser.start_context(ParseContextKind::Block).unwrap();
    assert_eq!(parser.context(), Some(ParseContext::BlockOut));
    parser.start_context(ParseContextKind::Block).unwrap();
    assert_eq!(parser.context(), Some(ParseContext::BlockIn));
    parser.start_context(ParseContextKind::BlockMapping).unwrap();
    assert_eq!(parser.context(), Some(ParseContext::BlockKey));
    parser.start_context(ParseContextKind::FlowMapping).unwrap();
    assert_eq!(parser.context(), Some(ParseContext::FlowKey));
    parser.end_context(ParseContextKind::FlowMapping).unwrap();
    parser.end_context(ParseContextKind::BlockMapping).unwrap();
    parser.end_context(ParseContextKind::Block).unwrap();
    parser.end_context(ParseContextKind::Block).unwrap();
    assert_eq!(parser.context(), None);
}

#[test]
fn closing_the_wrong_context_fails() {
    let mut parser = Parser::new("a").unwrap();
    parser.start_context(ParseContextKind::BlockMapping).unwrap();
    let error = parser.end_context(ParseContextKind::Flow).unwrap_err();
    assert_eq!(
        error.msg.unwrap(),
        "expected but failed to end context Flow, instead found BlockKey"
    );
    assert_eq!(parser.context(), None);
}

#[test]
fn closing_without_an_open_context_fails() {
    let mut parser = Parser::new("a").unwrap();
    let error = parser.end_context(ParseContextKind::Block).unwrap_err();
    assert_eq!(
        error.msg.unwrap(),
        "expected context Block but no contexts remained"
    );
}

#[test]
fn a_token_that_is_not_expected_is_not_popped() {
    let mut parser = Parser::new("a").unwrap();
    parser.expected.push(b'}');
    let error = parser.pop_if_match(b':').unwrap_err();
    assert_eq!(error.msg.unwrap(), "token was not expected");
    assert_eq!(parser.expected, vec![b'}']);
    parser.pop_if_match(b'}').unwrap();
    assert!(parser.expected.is_empty());
    assert!(parser.pop_if_match(b'}').is_err());
}

#[test]
fn flow_mapping_must_begin_with_a_brace() {
    let mut parser = Parser::new("a").unwrap();
    let error = parser.parse_mapping_flow(4).unwrap_err();
    assert_eq!(error.msg.unwrap(), "expected left brace");
}

#[test]
fn flow_sequence_must_begin_with_a_bracket() {
    let mut parser = Parser::new("a").unwrap();
    let error = parser.parse_sequence_flow(4).unwrap_err();
    assert_eq!(error.msg.unwrap(), "failed to parse flow sequence");
}

#[test]
fn block_sequence_must_begin_with_a_dash() {
    let mut parser = Parser::new("a").unwrap();
    let error = parser.parse_sequence_block(4).unwrap_err();
    assert_eq!(error.msg.unwrap(), "failed to parse block sequence");
}

#[test]
fn block_mapping_must_stand_on_its_colon() {
    let mut parser = Parser::new("a").unwrap();
    let error = parser
        .parse_mapping_block(Yaml::Scalar("k"), 4)
        .unwrap_err();
    assert_eq!(
        error.msg.unwrap(),
        "failed to parse block mapping, expected ':'"
    );
}

#[test]
fn error_that_names_the_byte_found() {
    let parser = Parser::new("}").unwrap();
    let error = parser.parse_error::<()>().unwrap_err();
    assert_eq!(
        error.msg.unwrap(),
        "unexpectedly found \"125\" while parsing"
    );
    assert_eq!((error.line, error.col), (1, 2));
}

#[test]
fn error_with_a_message_of_the_caller() {
    let parser = Parser::new("ab\ncd").unwrap();
    let error = parser.make_parse_error_with_msg("something");
    assert_eq!(
        error,
        YamlParseError {
            line: 1,
            col: 2,
            msg: Some("something".to_string()),
            source: None
        }
    );
    assert_eq!(parser.parse_error_with_msg::<u8>("other").unwrap_err().msg.unwrap(), "other");
}
