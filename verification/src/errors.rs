//! Why and where parsing stops: the failures, their messages, and lines and columns.
use crate::bytes::LF;
use crate::context::{ParseContext, ParseContextKind};
use crate::decimal::{decimal, push_decimal};
use vstd::prelude::*;
use vstd::string::*;

verus! {

/// Why parsing stopped.
#[derive(Clone, Copy, Debug, PartialEq, Eq)]
pub enum Failure {
    ExpectedInput,
    InputTooLong,
    BlockInFlow,
    EndContextMismatch(ParseContextKind, ParseContext),
    EndContextEmpty(ParseContextKind),
    UnexpectedEnd,
    UnexpectedBrace,
    UnexpectedBracket,
    TopLevel,
    UnterminatedDouble,
    UnterminatedSingle,
    ExpectedTagName,
    UnclosedAngle,
    UnmatchedAngle,
    BlockScalarNewline,
    ExpectedLeftBrace,
    FlowMapping,
    BlockMapping,
    BlockMappingColon,
    FlowSequence,
    UnexpectedDash,
    ExpectedSequenceItem,
    BlockSequence,
    TokenNotExpected,
    TooDeep,
    SplitCharacter,
    Unexpectedly(u8),
}

pub open spec fn kind_name(kind: ParseContextKind) -> Seq<char> {
    match kind {
        ParseContextKind::FlowMapping => "FlowMapping"@,
        ParseContextKind::Flow => "Flow"@,
        ParseContextKind::BlockMapping => "BlockMapping"@,
        ParseContextKind::Block => "Block"@,
    }
}

pub open spec fn context_name(ctx: ParseContext) -> Seq<char> {
    match ctx {
        ParseContext::FlowIn => "FlowIn"@,
        ParseContext::FlowOut => "FlowOut"@,
        ParseContext::FlowKey => "FlowKey"@,
        ParseContext::BlockIn => "BlockIn"@,
        ParseContext::BlockOut => "BlockOut"@,
        ParseContext::BlockKey => "BlockKey"@,
    }
}

fn kind_text(kind: ParseContextKind) -> (s: &'static str)
    ensures
        s@ == kind_name(kind),
{
    match kind {
        ParseContextKind::FlowMapping => "FlowMapping",
        ParseContextKind::Flow => "Flow",
        ParseContextKind::BlockMapping => "BlockMapping",
        ParseContextKind::Block => "Block",
    }
}

fn context_text(ctx: ParseContext) -> (s: &'static str)
    ensures
        s@ == context_name(ctx),
{
    match ctx {
        ParseContext::FlowIn => "FlowIn",
        ParseContext::FlowOut => "FlowOut",
        ParseContext::FlowKey => "FlowKey",
        ParseContext::BlockIn => "BlockIn",
        ParseContext::BlockOut => "BlockOut",
        ParseContext::BlockKey => "BlockKey",
    }
}

impl Failure {
    /// The message that a reader of the error sees.
    pub open spec fn text(self) -> Seq<char> {
        match self {
            Failure::ExpectedInput => "expected input"@,
            Failure::InputTooLong => "input too long"@,
            Failure::BlockInFlow => "block collections cannot be values in flow collections"@,
            Failure::EndContextMismatch(kind, actual) => "expected but failed to end context "@
                + kind_name(kind) + ", instead found "@ + context_name(actual),
            Failure::EndContextEmpty(kind) => "expected context "@ + kind_name(kind)
                + " but no contexts remained"@,
            Failure::UnexpectedEnd => "unexpected end of input"@,
            Failure::UnexpectedBrace => "unexpected symbol '}'"@,
            Failure::UnexpectedBracket => "unexpected symbol ']'"@,
            Failure::TopLevel => "failed to parse at top level"@,
            Failure::UnterminatedDouble => "unexpected end of input; expected '\"'"@,
            Failure::UnterminatedSingle => "unexpected end of input; expected '''"@,
            Failure::ExpectedTagName => "expected tag name after '!'"@,
            Failure::UnclosedAngle => "unclosed '<' in tag name"@,
            Failure::UnmatchedAngle => "unmatched '>' in tag name"@,
            Failure::BlockScalarNewline => "expected newline after block scalar indicator"@,
            Failure::ExpectedLeftBrace => "expected left brace"@,
            Failure::FlowMapping => "failed to parse flow mapping"@,
            Failure::BlockMapping => "failed to parse block mapping"@,
            Failure::BlockMappingColon => "failed to parse block mapping, expected ':'"@,
            Failure::FlowSequence => "failed to parse flow sequence"@,
            Failure::UnexpectedDash => "unexpected '-'"@,
            Failure::ExpectedSequenceItem => "expected sequence item"@,
            Failure::BlockSequence => "failed to parse block sequence"@,
            Failure::TokenNotExpected => "token was not expected"@,
            Failure::TooDeep => "maximum nesting depth exceeded"@,
            Failure::SplitCharacter => "scalar does not lie on character boundaries"@,
            Failure::Unexpectedly(b) => "unexpectedly found \""@ + decimal(b as nat)
                + "\" while parsing"@,
        }
    }

    pub fn message(self) -> (s: String)
        ensures
            s@ == self.text(),
    {
        match self {
            Failure::ExpectedInput => String::from_str("expected input"),
            Failure::InputTooLong => String::from_str("input too long"),
            Failure::BlockInFlow => String::from_str(
                "block collections cannot be values in flow collections",
            ),
            Failure::EndContextMismatch(kind, actual) => {
                let mut s = String::from_str("expected but failed to end context ");
                s.append(kind_text(kind));
                s.append(", instead found ");
                s.append(context_text(actual));
                s
            },
            Failure::EndContextEmpty(kind) => {
                let mut s = String::from_str("expected context ");
                s.append(kind_text(kind));
                s.append(" but no contexts remained");
                s
            },
            Failure::UnexpectedEnd => String::from_str("unexpected end of input"),
            Failure::UnexpectedBrace => String::from_str("unexpected symbol '}'"),
            Failure::UnexpectedBracket => String::from_str("unexpected symbol ']'"),
            Failure::TopLevel => String::from_str("failed to parse at top level"),
            Failure::UnterminatedDouble => String::from_str(
                "unexpected end of input; expected '\"'",
            ),
            Failure::UnterminatedSingle => String::from_str(
                "unexpected end of input; expected '''",
            ),
            Failure::ExpectedTagName => String::from_str("expected tag name after '!'"),
            Failure::UnclosedAngle => String::from_str("unclosed '<' in tag name"),
            Failure::UnmatchedAngle => String::from_str("unmatched '>' in tag name"),
            Failure::BlockScalarNewline => String::from_str(
                "expected newline after block scalar indicator",
            ),
            Failure::ExpectedLeftBrace => String::from_str("expected left brace"),
            Failure::FlowMapping => String::from_str("failed to parse flow mapping"),
            Failure::BlockMapping => String::from_str("failed to parse block mapping"),
            Failure::BlockMappingColon => String::from_str(
                "failed to parse block mapping, expected ':'",
            ),
            Failure::FlowSequence => String::from_str("failed to parse flow sequence"),
            Failure::UnexpectedDash => String::from_str("unexpected '-'"),
            Failure::ExpectedSequenceItem => String::from_str("expected sequence item"),
            Failure::BlockSequence => String::from_str("failed to parse block sequence"),
            Failure::TokenNotExpected => String::from_str("token was not expected"),
            Failure::TooDeep => String::from_str("maximum nesting depth exceeded"),
            Failure::SplitCharacter => String::from_str(
                "scalar does not lie on character boundaries",
            ),
            Failure::Unexpectedly(b) => {
                let mut s = String::from_str("unexpectedly found \"");
                push_decimal(&mut s, b as u64);
                s.append("\" while parsing");
                s
            },
        }
    }
}

/// Where parsing stopped, counted from 1, and why.
#[derive(Debug, PartialEq)]
pub struct YamlParseError {
    pub line: usize,
    pub col: usize,
    pub msg: Option<String>,
    pub source: Option<Box<YamlParseError>>,
}

/// How many line feeds stand before offset `off`.
pub open spec fn breaks_before(bytes: Seq<u8>, off: int) -> int
    decreases off,
{
    if off <= 0 || off > bytes.len() {
        0
    } else {
        breaks_before(bytes, off - 1) + if bytes[off - 1] == LF {
            1int
        } else {
            0int
        }
    }
}

/// Where the line that offset `off` lies in begins: behind the last line feed before
/// `off`, or at the start of the text.
pub open spec fn line_start(bytes: Seq<u8>, off: int) -> int
    decreases off,
{
    if off <= 0 || off > bytes.len() {
        0
    } else if bytes[off - 1] == LF {
        off
    } else {
        line_start(bytes, off - 1)
    }
}

/// Line and column that an error at byte `idx` is reported at, both counted from 1:
/// those of the offset one behind the byte. The line is one more than the line feeds
/// before that offset, and the column is counted from where the line begins. A line
/// feed that ends the text opens no further line: an error on it is reported on the
/// line that it ends.
pub open spec fn line_col(bytes: Seq<u8>, idx: int) -> (int, int) {
    let off = idx + 1;
    let line = breaks_before(bytes, off) + 1;
    (
        if off == bytes.len() && bytes[idx] == LF {
            line - 1
        } else {
            line
        },
        off - line_start(bytes, off) + 1,
    )
}

/// Computes `line_col`.
pub fn lookup(bytes: &[u8], idx: usize) -> (r: (usize, usize))
    requires
        idx < bytes@.len(),
        bytes@.len() < usize::MAX,
    ensures
        r.0 as int == line_col(bytes@, idx as int).0,
        r.1 as int == line_col(bytes@, idx as int).1,
{
    let off: usize = idx + 1;
    let mut pos: usize = 0;
    let mut breaks: usize = 0;
    let mut start: usize = 0;
    while pos < off
        invariant
            off == idx + 1,
            off <= bytes@.len(),
            pos <= off,
            breaks <= pos,
            start <= pos,
            breaks as int == breaks_before(bytes@, pos as int),
            start as int == line_start(bytes@, pos as int),
        decreases off - pos,
    {
        if bytes[pos] == LF {
            breaks = breaks + 1;
            start = pos + 1;
        }
        pos = pos + 1;
    }
    let line: usize = if off == bytes.len() && bytes[idx] == LF {
        breaks
    } else {
        breaks + 1
    };
    (line, off - start + 1)
}

impl YamlParseError {
    /// The error reports `failure` at byte `idx` of `bytes`.
    pub open spec fn reports(&self, bytes: Seq<u8>, idx: int, failure: Failure) -> bool {
        &&& self.line as int == line_col(bytes, idx).0
        &&& self.col as int == line_col(bytes, idx).1
        &&& self.msg matches Some(m) && m@ == failure.text()
        &&& self.source is None
    }

    /// The text of the message, empty where there is none.
    pub open spec fn message_text(&self) -> Seq<char> {
        match self.msg {
            Some(m) => m@,
            None => Seq::empty(),
        }
    }

    /// What `to_string` returns.
    pub open spec fn rendering(&self) -> Seq<char> {
        "error occurred parsing the input at line "@ + decimal(self.line as nat) + ", column "@
            + decimal(self.col as nat) + " : "@ + self.message_text()
    }

    /// The error as one line of text.
    pub fn to_string(&self) -> (s: String)
        ensures
            s@ == self.rendering(),
    {
        let mut s = String::from_str("error occurred parsing the input at line ");
        push_decimal(&mut s, self.line as u64);
        s.append(", column ");
        push_decimal(&mut s, self.col as u64);
        s.append(" : ");
        match &self.msg {
            Some(m) => {
                s.append(m.as_str());
            },
            None => {
                assert(s@ + Seq::<char>::empty() =~= s@);
            },
        }
        s
    }
}

} // verus!
