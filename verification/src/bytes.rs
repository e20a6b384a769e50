//! The bytes that the grammar tells apart, and what each may begin or continue.
use crate::context::{context_in_flow, in_flow, ParseContext};
use vstd::prelude::*;

verus! {

/// The byte of line feed.
pub const LF: u8 = 10;

/// The byte of carriage return.
pub const CR: u8 = 13;

/// The byte of blank.
pub const SPACE: u8 = 32;

/// The byte of tabulator.
pub const TAB: u8 = 9;

/// The byte of `,`.
pub const COMMA: u8 = 44;

/// The byte of `[`.
pub const LBRACKET: u8 = 91;

/// The byte of `]`.
pub const RBRACKET: u8 = 93;

/// The byte of `{`.
pub const LBRACE: u8 = 123;

/// The byte of `}`.
pub const RBRACE: u8 = 125;

/// The byte of `-`.
pub const DASH: u8 = 45;

/// The byte of `?`.
pub const QUESTION: u8 = 63;

/// The byte of `:`.
pub const COLON: u8 = 58;

/// The byte of `#`.
pub const HASH: u8 = 35;

/// The byte of `&`.
pub const AMPERSAND: u8 = 38;

/// The byte of `*`.
pub const STAR: u8 = 42;

/// The byte of `!`.
pub const BANG: u8 = 33;

/// The byte of `|`.
pub const PIPE: u8 = 124;

/// The byte of `>`.
pub const GREATER: u8 = 62;

/// The byte of `<`.
pub const LESS: u8 = 60;

/// The byte of `'`.
pub const SINGLE_QUOTE: u8 = 39;

/// The byte of `"`.
pub const DOUBLE_QUOTE: u8 = 34;

/// The byte of `%`.
pub const PERCENT: u8 = 37;

/// The byte of `@`.
pub const AT_SIGN: u8 = 64;

/// The byte of the backtick.
pub const BACKTICK: u8 = 96;

/// The byte of `+`.
pub const PLUS: u8 = 43;

/// The byte of `(`.
pub const LPAREN: u8 = 40;

/// The byte of `)`.
pub const RPAREN: u8 = 41;

/// The byte of `.`.
pub const DOT: u8 = 46;

/// The byte of `_`.
pub const UNDERSCORE: u8 = 95;

/// The byte of `0`.
pub const DIGIT_0: u8 = 48;

/// The byte of `9`.
pub const DIGIT_9: u8 = 57;

/// The byte of `a`.
pub const LOWER_A: u8 = 97;

/// The byte of `z`.
pub const LOWER_Z: u8 = 122;

/// The byte of `A`.
pub const UPPER_A: u8 = 65;

/// The byte of `Z`.
pub const UPPER_Z: u8 = 90;

/// A line feed or a carriage return.
pub open spec fn is_linebreak(b: u8) -> bool {
    b == LF || b == CR
}

/// A blank or a tabulator.
pub open spec fn is_ws(b: u8) -> bool {
    b == SPACE || b == TAB
}

/// One of `, [ ] { }`.
pub open spec fn is_flow_indicator(b: u8) -> bool {
    b == COMMA || b == LBRACKET || b == RBRACKET || b == LBRACE || b == RBRACE
}

/// One of the bytes that the grammar reserves:
/// `- ? : , [ ] { } # & * ! | > ' " % @` and the backtick.
pub open spec fn is_indicator(b: u8) -> bool {
    b == DASH || b == QUESTION || b == COLON || is_flow_indicator(b) || b == HASH
        || b == AMPERSAND || b == STAR || b == BANG || b == PIPE || b == GREATER
        || b == SINGLE_QUOTE || b == DOUBLE_QUOTE || b == PERCENT || b == AT_SIGN
        || b == BACKTICK
}

/// A decimal digit.
pub open spec fn is_digit(b: u8) -> bool {
    DIGIT_0 <= b <= DIGIT_9
}

/// A byte that may stand inside a plain scalar as far as its surroundings go:
/// no blank, no line break and, inside a flow collection, no flow indicator.
pub open spec fn is_ns_plain_safe(b: u8, active: Option<ParseContext>) -> bool {
    !is_ws(b) && !is_linebreak(b) && !(in_flow(active) && is_flow_indicator(b))
}

/// A byte that continues a plain scalar. A colon does unless a blank, a line break or
/// the end of the input follows it; `#` never does.
pub open spec fn is_ns_plain(b: u8, next: Option<u8>, active: Option<ParseContext>) -> bool {
    if b == COLON {
        match next {
            Some(n) => !is_ws(n) && !is_linebreak(n),
            None => false,
        }
    } else if b == HASH {
        false
    } else {
        is_ns_plain_safe(b, active)
    }
}

/// A byte that begins a scalar: a quote, a byte that is no indicator, or one of
/// `- ? :` directly followed by a byte that is safe in a plain scalar.
pub open spec fn is_scalar_start(b: u8, next: Option<u8>, active: Option<ParseContext>) -> bool {
    if b == DOUBLE_QUOTE || b == SINGLE_QUOTE {
        true
    } else if b == DASH || b == QUESTION || b == COLON {
        match next {
            Some(n) => is_ns_plain_safe(n, active),
            None => false,
        }
    } else {
        !is_indicator(b) && !is_ws(b) && !is_linebreak(b)
    }
}

/// A byte of a tag's name: a letter, a digit, `-` or `_`.
pub open spec fn is_tag_char(b: u8) -> bool {
    (LOWER_A <= b <= LOWER_Z) || (UPPER_A <= b <= UPPER_Z) || is_digit(b) || b == DASH
        || b == UNDERSCORE
}

#[verifier::when_used_as_spec(is_linebreak)]
pub fn byte_is_linebreak(b: u8) -> (r: bool)
    ensures
        r == is_linebreak(b),
{
    b == LF || b == CR
}

#[verifier::when_used_as_spec(is_ws)]
pub fn byte_is_ws(b: u8) -> (r: bool)
    ensures
        r == is_ws(b),
{
    b == SPACE || b == TAB
}

#[verifier::when_used_as_spec(is_flow_indicator)]
pub fn byte_is_flow_indicator(b: u8) -> (r: bool)
    ensures
        r == is_flow_indicator(b),
{
    b == COMMA || b == LBRACKET || b == RBRACKET || b == LBRACE || b == RBRACE
}

#[verifier::when_used_as_spec(is_indicator)]
pub fn byte_is_indicator(b: u8) -> (r: bool)
    ensures
        r == is_indicator(b),
{
    b == DASH || b == QUESTION || b == COLON || byte_is_flow_indicator(b) || b == HASH
        || b == AMPERSAND || b == STAR || b == BANG || b == PIPE || b == GREATER
        || b == SINGLE_QUOTE || b == DOUBLE_QUOTE || b == PERCENT || b == AT_SIGN
        || b == BACKTICK
}

#[verifier::when_used_as_spec(is_digit)]
pub fn byte_is_digit(b: u8) -> (r: bool)
    ensures
        r == is_digit(b),
{
    DIGIT_0 <= b && b <= DIGIT_9
}

#[verifier::when_used_as_spec(is_ns_plain_safe)]
pub fn byte_is_ns_plain_safe(b: u8, active: Option<ParseContext>) -> (r: bool)
    ensures
        r == is_ns_plain_safe(b, active),
{
    !byte_is_ws(b) && !byte_is_linebreak(b) && !(context_in_flow(active) && byte_is_flow_indicator(
        b,
    ))
}

#[verifier::when_used_as_spec(is_ns_plain)]
pub fn byte_is_ns_plain(b: u8, next: Option<u8>, active: Option<ParseContext>) -> (r: bool)
    ensures
        r == is_ns_plain(b, next, active),
{
    if b == COLON {
        match next {
            Some(n) => !byte_is_ws(n) && !byte_is_linebreak(n),
            None => false,
        }
    } else if b == HASH {
        false
    } else {
        byte_is_ns_plain_safe(b, active)
    }
}

#[verifier::when_used_as_spec(is_scalar_start)]
pub fn byte_is_scalar_start(b: u8, next: Option<u8>, active: Option<ParseContext>) -> (r: bool)
    ensures
        r == is_scalar_start(b, next, active),
{
    if b == DOUBLE_QUOTE || b == SINGLE_QUOTE {
        true
    } else if b == DASH || b == QUESTION || b == COLON {
        match next {
            Some(n) => byte_is_ns_plain_safe(n, active),
            None => false,
        }
    } else {
        !byte_is_indicator(b) && !byte_is_ws(b) && !byte_is_linebreak(b)
    }
}

/// The byte is `-`.
pub fn byte_is_dash(b: u8) -> (r: bool)
    ensures
        r == (b == DASH),
{
    b == DASH
}

#[verifier::when_used_as_spec(is_tag_char)]
pub fn byte_is_tag_char(b: u8) -> (r: bool)
    ensures
        r == is_tag_char(b),
{
    (LOWER_A <= b && b <= LOWER_Z) || (UPPER_A <= b && b <= UPPER_Z) || byte_is_digit(b)
        || b == DASH || b == UNDERSCORE
}

} // verus!
