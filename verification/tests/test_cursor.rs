use mx_yaml::bytes::{byte_is_digit, byte_is_linebreak};
use mx_yaml::context::ParseContext;
use mx_yaml::cursor::Parser;
use mx_yaml::errors::lookup;
use mx_yaml::scan::{Scan, ScanKind};
use mx_yaml::Yaml;

#[test]
fn a_new_parser_stands_on_the_first_byte() {
    let parser = Parser::new("ab").unwrap();
    assert_eq!(parser.current, b'a');
    assert_eq!(parser.idx, 0);
    assert_eq!(parser.indent, 0);
    assert!(parser.expected.is_empty());
    assert!(parser.contexts.is_empty());
    assert_eq!(parser.max_depth, 256);
    assert!(Parser::new("").is_err());
}

#[test]
fn bump_moves_one_byte_and_stops_on_the_last() {
    let mut parser = Parser::new("ab").unwrap();
    assert_eq!(parser.peek(), Some(b'b'));
    assert!(!parser.at_end());
    assert!(parser.bump());
    assert_eq!((parser.idx, parser.current), (1, b'b'));
    assert!(parser.at_end());
    assert_eq!(parser.peek(), None);
    assert!(!parser.bump());
    assert_eq!((parser.idx, parser.current), (1, b'b'));
}

#[test]
fn advance_fails_on_the_last_byte() {
    let mut parser = Parser::new("ab").unwrap();
    assert!(parser.advance().is_ok());
    let error = parser.advance().unwrap_err();
    assert_eq!(error.msg.unwrap(), "unexpected end of input");
    assert_eq!((error.line, error.col), (1, 3));
}

#[test]
fn bump_newline_passes_over_a_second_line_break() {
    let mut parser = Parser::new("\n\r\nx").unwrap();
    assert!(parser.bump_newline());
    assert_eq!((parser.idx, parser.current), (2, b'\n'));
    assert!(parser.bump_newline());
    assert_eq!((parser.idx, parser.current), (3, b'x'));
    assert!(!parser.bump_newline());
    let mut parser = Parser::new("a\n").unwrap();
    assert!(!parser.bump_newline());
    assert_eq!(parser.idx, 1);
}

#[test]
fn check_ahead_looks_at_one_byte() {
    let parser = Parser::new("a1\n").unwrap();
    assert!(parser.check_ahead_1(byte_is_digit));
    assert!(!parser.check_ahead_1(byte_is_linebreak));
    assert!(parser.check_ahead_n(2, byte_is_linebreak));
    assert!(!parser.check_ahead_n(3, byte_is_linebreak));
    assert!(parser.check_ahead_n(0, |b| b == b'a'));
}

#[test]
fn chomp_whitespace_stops_at_the_first_byte_that_is_no_blank() {
    let mut parser = Parser::new(" \t x").unwrap();
    parser.chomp_whitespace();
    assert_eq!((parser.idx, parser.indent), (3, 0));
    parser.chomp_whitespace();
    assert_eq!(parser.idx, 3);
    let mut parser = Parser::new("   ").unwrap();
    parser.chomp_whitespace();
    assert_eq!(parser.idx, 2);
}

#[test]
fn chomp_indent_records_the_blanks_it_passed() {
    let mut parser = Parser::new("   x").unwrap();
    parser.chomp_indent();
    assert_eq!((parser.idx, parser.indent), (3, 3));
    parser.chomp_indent();
    assert_eq!((parser.idx, parser.indent), (3, 0));
    let mut parser = Parser::new("  ").unwrap();
    parser.chomp_indent();
    assert_eq!((parser.idx, parser.indent), (1, 1));
}

#[test]
fn chomp_comment_stops_at_the_line_break() {
    let mut parser = Parser::new("# note\nx").unwrap();
    parser.chomp_comment();
    assert_eq!((parser.idx, parser.current), (6, b'\n'));
    parser.chomp_comment();
    assert_eq!(parser.idx, 6);
    let mut parser = Parser::new("#ab").unwrap();
    parser.chomp_comment();
    assert_eq!(parser.idx, 2);
}

#[test]
fn chomp_newlines_needs_a_byte_behind_them() {
    let mut parser = Parser::new("\n\r\nx").unwrap();
    assert!(parser.chomp_newlines().is_ok());
    assert_eq!(parser.idx, 3);
    let mut parser = Parser::new("\n\n").unwrap();
    let error = parser.chomp_newlines().unwrap_err();
    assert_eq!(error.msg.unwrap(), "unexpected end of input");
    assert_eq!(parser.idx, 1);
}

#[test]
fn chomp_gap_passes_blanks_line_breaks_and_comments() {
    let mut parser = Parser::new("  # one\n\n # two\n x").unwrap();
    parser.chomp_gap();
    assert_eq!((parser.idx, parser.current), (17, b'x'));
}

#[test]
fn skip_line_stops_at_the_line_break() {
    let mut parser = Parser::new("abc\nd").unwrap();
    parser.skip_line();
    assert_eq!(parser.idx, 3);
    let mut parser = Parser::new("abc").unwrap();
    parser.skip_line();
    assert_eq!(parser.idx, 2);
}

#[test]
fn slice_range_cuts_the_end_down_and_wants_character_boundaries() {
    let parser = Parser::new("aé b").unwrap();
    assert_eq!(parser.slice_range((0, 3)), Some("aé"));
    assert_eq!(parser.slice_range((0, 99)), Some("aé b"));
    assert_eq!(parser.slice_range((3, 3)), Some(""));
    assert_eq!(parser.slice_range((0, 2)), None);
    assert_eq!(parser.slice_range((2, 3)), None);
    assert_eq!(parser.slice_range((3, 1)), None);
}

#[test]
fn line_and_column_of_an_error() {
    let text = "ab\ncd\r\nef";
    assert_eq!(lookup(text.as_bytes(), 0), (1, 2));
    assert_eq!(lookup(text.as_bytes(), 1), (1, 3));
    assert_eq!(lookup(text.as_bytes(), 2), (2, 1));
    assert_eq!(lookup(text.as_bytes(), 3), (2, 2));
    assert_eq!(lookup(text.as_bytes(), 6), (3, 1));
    assert_eq!(lookup(text.as_bytes(), 7), (3, 2));
    assert_eq!(lookup(text.as_bytes(), 8), (3, 3));
    assert_eq!(lookup("ab\n".as_bytes(), 2), (1, 1));
    assert_eq!(lookup("ab\n\n".as_bytes(), 3), (2, 1));
    assert_eq!(lookup("ab\n\n".as_bytes(), 2), (2, 1));
    assert_eq!(lookup("abc".as_bytes(), 1), (1, 3));
    let parser = Parser::new(text).unwrap();
    assert_eq!(parser.lookup_line_col(), (1, 2));
}

#[test]
fn a_carriage_return_counts_as_a_column() {
    assert_eq!(lookup("a\rbc\nd".as_bytes(), 5), (2, 2));
    assert_eq!(lookup("a\rbc\nd".as_bytes(), 3), (1, 5));
    assert_eq!(lookup("a\r\u{e9}c\nd".as_bytes(), 6), (2, 2));
}

#[test]
fn take_while_stops_at_the_closing_quote() {
    let mut parser = Parser::new("ab\"c").unwrap();
    let mut scan = Scan::new_quoted(ScanKind::DoubleQuoted);
    assert_eq!(parser.take_while(&mut scan), Ok((0, 2)));
    assert_eq!(parser.idx, 2);
    let mut parser = Parser::new("ab'c").unwrap();
    let mut scan = Scan::new_quoted(ScanKind::DoubleQuoted);
    assert_eq!(parser.take_while(&mut scan), Err((0, 4)));
    assert_eq!(parser.idx, 3);
}

#[test]
fn take_while_counts_brackets_in_a_plain_scalar() {
    let mut parser = Parser::new("k[a: b](c: d): v").unwrap();
    let mut scan = Scan::new_plain(Some(ParseContext::BlockKey));
    assert_eq!(parser.take_while(&mut scan), Ok((0, 13)));
    assert_eq!((scan.bracket_depth, scan.paren_depth), (0, 0));
    let mut parser = Parser::new("a[b\nc").unwrap();
    let mut scan = Scan::new_plain(None);
    assert_eq!(parser.take_while(&mut scan), Ok((0, 3)));
    assert_eq!(scan.bracket_depth, 1);
}

#[test]
fn take_while_stops_at_flow_indicators_inside_flow_collections() {
    let mut parser = Parser::new("ab,c").unwrap();
    let mut scan = Scan::new_plain(Some(ParseContext::FlowIn));
    assert_eq!(parser.take_while(&mut scan), Ok((0, 2)));
    let mut parser = Parser::new("ab,c d").unwrap();
    let mut scan = Scan::new_plain(Some(ParseContext::BlockKey));
    assert_eq!(parser.take_while(&mut scan), Ok((0, 4)));
}

#[test]
fn scalars_are_read_by_their_first_byte() {
    let mut parser = Parser::new("'12' x").unwrap();
    assert_eq!(parser.parse_scalar().unwrap(), Yaml::Scalar("12"));
    assert_eq!(parser.idx, 4);
    let mut parser = Parser::new("12 # twelve").unwrap();
    assert_eq!(parser.parse_scalar().unwrap(), Yaml::Int(12));
}

#[test]
fn tags_are_read_up_to_the_value() {
    let mut parser = Parser::new("!seq<a,b>   x").unwrap();
    assert_eq!(parser.parse_tag().unwrap(), "seq<a,b>");
    assert_eq!((parser.idx, parser.current), (12, b'x'));
    let mut parser = Parser::new("!abc").unwrap();
    assert_eq!(parser.parse_tag().unwrap(), "abc");
    assert_eq!(parser.idx, 3);
}
