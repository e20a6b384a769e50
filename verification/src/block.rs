//! Block scalars: text over several lines behind `|` or `>`, put together line by line.
use crate::bytes::{byte_is_linebreak, byte_is_ws, is_linebreak, is_ws, DASH, DIGIT_0, PLUS};
use crate::cursor::{
    comment_end, line_end, line_end_bounds, text_between, ws_end, ws_end_bounds, Cursor, Parsed,
    Parser,
};
use crate::errors::{Failure, YamlParseError};
use crate::value::{Node, Yaml};
use vstd::prelude::*;
use vstd::string::*;

verus! {

/// What becomes of the line breaks at the end of a block scalar.
#[derive(Clone, Copy, Debug, PartialEq, Eq, Structural)]
pub enum Chomp {
    /// None is kept.
    Strip,
    /// One is kept, where the scalar has any text.
    Clip,
    /// All are kept.
    Keep,
}

/// What stands behind `|` or `>` on its line.
#[derive(Clone, Copy, Debug)]
pub struct Header {
    pub chomp: Chomp,
    /// The indentation of the content, where a digit gives it.
    pub explicit: Option<usize>,
}

/// What has been put together of a block scalar.
pub struct Lines {
    /// The text so far.
    pub text: Seq<char>,
    /// How many empty lines were read since the last line with content.
    pub pending: nat,
    /// The indentation of the content, once it is known.
    pub indent: Option<nat>,
}

/// How reading the lines of a block scalar ends.
pub struct Block {
    pub cursor: Cursor,
    pub lines: Lines,
    /// A line did not lie on character boundaries.
    pub split: bool,
}

/// `s`, `n` times.
pub open spec fn repeated(s: Seq<char>, n: nat) -> Seq<char>
    decreases n,
{
    if n == 0 {
        Seq::empty()
    } else {
        repeated(s, (n - 1) as nat) + s
    }
}

/// One character repeated `n` times is `n` characters long.
pub proof fn repeated_len(s: Seq<char>, n: nat)
    requires
        s.len() == 1,
    ensures
        repeated(s, n).len() == n,
    decreases n,
{
    if n > 0 {
        repeated_len(s, (n - 1) as nat);
    }
}

/// The header after the indicator at the cursor, if one stands there: `-` strips, `+`
/// keeps, a digit from 1 to 9 gives the indentation.
pub open spec fn indicator(bytes: Seq<u8>, c: Cursor, h: Header) -> Option<Header> {
    let cur = c.current(bytes);
    if cur == DASH {
        Some(Header { chomp: Chomp::Strip, ..h })
    } else if cur == PLUS {
        Some(Header { chomp: Chomp::Keep, ..h })
    } else if DIGIT_0 < cur <= DIGIT_0 + 9 {
        Some(Header { explicit: Some((cur - DIGIT_0) as usize), ..h })
    } else {
        None
    }
}

/// The header that up to two indicators from the cursor on give, and the cursor behind
/// them.
pub open spec fn header(bytes: Seq<u8>, c: Cursor) -> (Cursor, Header) {
    let plain = Header { chomp: Chomp::Clip, explicit: None };
    match indicator(bytes, c, plain) {
        None => (c, plain),
        Some(first) => match indicator(bytes, c.bumped(bytes), first) {
            None => (c.bumped(bytes), first),
            Some(second) => (c.bumped(bytes).bumped(bytes), second),
        },
    }
}

/// How many blanks the run of blanks that begins at `i` holds.
pub open spec fn blank_count(bytes: Seq<u8>, i: int) -> int {
    let e = ws_end(bytes, i);
    if 0 <= e < bytes.len() && is_ws(bytes[e]) {
        e - i + 1
    } else {
        e - i
    }
}

/// Where the content of the line that `i` lies in ends: at its line break, or at the end
/// of the input.
pub open spec fn content_end(bytes: Seq<u8>, i: int) -> int {
    let e = line_end(bytes, i);
    if 0 <= e < bytes.len() && is_linebreak(bytes[e]) {
        e
    } else {
        e + 1
    }
}

/// The text with the line that begins at the cursor, indented by `blanks`, added to it.
///
/// First come the empty lines read since the last line with content, as line breaks.
/// Where there is text by then, the line is parted from it by a blank in a folded
/// scalar and by a line break in a literal one. Indentation beyond that of the content
/// is kept as blanks.
pub open spec fn with_line(
    lines: Lines,
    fold: bool,
    blanks: int,
    content: Seq<char>,
) -> Seq<char> {
    let base = lines.text + repeated("\n"@, lines.pending);
    let parted = if base.len() > 0 {
        base + if fold {
            " "@
        } else {
            "\n"@
        }
    } else {
        base
    };
    let indent: int = match lines.indent {
        Some(n) => n as int,
        None => blanks,
    };
    parted + repeated(" "@, (blanks - indent) as nat) + content
}

/// How the lines of a block scalar are read from the cursor on.
///
/// An empty line, or one of blanks alone, is counted. The first line with content
/// gives the indentation of the content unless the header did. A line indented less
/// ends the scalar: the cursor stays on its first byte that is no blank, and its
/// indentation is recorded. Any other line is added to the text.
pub open spec fn block_lines(bytes: Seq<u8>, c: Cursor, lines: Lines, fold: bool) -> Block
    decreases bytes.len() - c.idx,
{
    if !(0 <= c.idx < bytes.len()) {
        Block { cursor: c, lines, split: false }
    } else {
        let e = ws_end(bytes, c.idx);
        let blanks = blank_count(bytes, c.idx);
        if is_linebreak(bytes[e]) {
            let counted = Lines { pending: lines.pending + 1, ..lines };
            if e + 1 < bytes.len() {
                proof {
                    ws_end_bounds(bytes, c.idx);
                }
                block_lines(bytes, c.at(e + 1), counted, fold)
            } else {
                Block { cursor: c.at(e), lines: counted, split: false }
            }
        } else {
            let indent: int = match lines.indent {
                Some(n) => n as int,
                None => blanks,
            };
            if blanks < indent {
                Block { cursor: c.at(e).indented(blanks), lines, split: false }
            } else {
                let stop = content_end(bytes, e);
                match text_between(bytes, e, stop) {
                    None => Block { cursor: c.at(line_end(bytes, e)), lines, split: true },
                    Some(content) => {
                        let added = Lines {
                            text: with_line(lines, fold, blanks, content),
                            pending: 0,
                            indent: Some(indent as nat),
                        };
                        if stop + 1 < bytes.len() {
                            proof {
                                ws_end_bounds(bytes, c.idx);
                                line_end_bounds(bytes, e);
                            }
                            block_lines(bytes, c.at(stop + 1), added, fold)
                        } else {
                            Block { cursor: c.at(line_end(bytes, e)), lines: added, split: false }
                        }
                    },
                }
            }
        }
    }
}

/// The text of a block scalar with the line breaks at its end as `chomp` asks.
pub open spec fn chomped(lines: Lines, chomp: Chomp) -> Seq<char> {
    match chomp {
        Chomp::Strip => lines.text,
        Chomp::Clip => if lines.text.len() > 0 {
            lines.text + "\n"@
        } else {
            lines.text
        },
        Chomp::Keep => lines.text + "\n"@ + repeated("\n"@, lines.pending),
    }
}

/// How the block scalar that begins with `|` or `>` at the cursor is read.
pub open spec fn block_scalar(bytes: Seq<u8>, c: Cursor, fold: bool) -> Parsed {
    if c.idx + 1 >= bytes.len() {
        Parsed::failed(c, Failure::UnexpectedEnd)
    } else {
        let head = header(bytes, c.at(c.idx + 1));
        let eol = head.0.at(comment_end(bytes, ws_end(bytes, head.0.idx)));
        if !is_linebreak(eol.current(bytes)) {
            Parsed::failed(eol, Failure::BlockScalarNewline)
        } else if eol.idx + 1 >= bytes.len() {
            Parsed::done(eol, Node::Text(Seq::empty()))
        } else {
            let start = Lines {
                text: Seq::empty(),
                pending: 0,
                indent: match head.1.explicit {
                    Some(n) => Some(n as nat),
                    None => None,
                },
            };
            let block = block_lines(bytes, eol.at(eol.idx + 1), start, fold);
            if block.split {
                Parsed::failed(block.cursor, Failure::SplitCharacter)
            } else {
                Parsed::done(block.cursor, Node::Text(chomped(block.lines, head.1.chomp)))
            }
        }
    }
}

/// Appends `piece` to `out`, `n` times.
pub fn push_repeated(out: &mut String, piece: &str, n: usize)
    ensures
        final(out)@ == old(out)@ + repeated(piece@, n as nat),
{
    let mut i: usize = 0;
    assert(out@ =~= old(out)@ + repeated(piece@, 0));
    while i < n
        invariant
            i <= n,
            out@ == old(out)@ + repeated(piece@, i as nat),
        decreases n - i,
    {
        out.append(piece);
        i = i + 1;
        assert(out@ =~= old(out)@ + repeated(piece@, i as nat));
    }
}

fn finish_block<'a>(text: String, pending: usize, chomp: Chomp) -> (y: Yaml<'a>)
    ensures
        y@ == Node::Text(chomped(Lines { text: text@, pending: pending as nat, indent: None }, chomp)),
{
    let mut result = text;
    match chomp {
        Chomp::Strip => {},
        Chomp::Clip => {
            if !result.as_str().is_empty() {
                result.append("\n");
            }
        },
        Chomp::Keep => {
            result.append("\n");
            push_repeated(&mut result, "\n", pending);
        },
    }
    Yaml::String(result)
}

impl<'a> Parser<'a> {
    fn parse_indicator(&mut self, h: Header) -> (r: Option<Header>)
        requires
            old(self).wf(),
        ensures
            r == indicator(old(self).input(), old(self)@, h),
            match r {
                Some(_) => old(self).steps_to(final(self), old(self)@.bumped(old(self).input())),
                None => old(self).steps_to(final(self), old(self)@),
            },
    {
        let cur: u8 = self.current;
        if cur == DASH {
            self.bump();
            Some(Header { chomp: Chomp::Strip, explicit: h.explicit })
        } else if cur == PLUS {
            self.bump();
            Some(Header { chomp: Chomp::Keep, explicit: h.explicit })
        } else if DIGIT_0 < cur && cur <= DIGIT_0 + 9 {
            self.bump();
            Some(Header { chomp: h.chomp, explicit: Some((cur - DIGIT_0) as usize) })
        } else {
            None
        }
    }

    fn parse_header(&mut self) -> (h: Header)
        requires
            old(self).wf(),
        ensures
            old(self).steps_to(final(self), header(old(self).input(), old(self)@).0),
            h == header(old(self).input(), old(self)@).1,
    {
        let plain = Header { chomp: Chomp::Clip, explicit: None };
        match self.parse_indicator(plain) {
            None => plain,
            Some(first) => match self.parse_indicator(first) {
                None => first,
                Some(second) => second,
            },
        }
    }

    /// Reads a literal block scalar, which keeps its line breaks.
    pub fn parse_literal_block_scalar(&mut self) -> (r: Result<Yaml<'a>, YamlParseError>)
        requires
            old(self).wf(),
        ensures
            old(self).yields(final(self), r, block_scalar(old(self).input(), old(self)@, false)),
    {
        self.parse_block_scalar(false)
    }

    /// Reads a folded block scalar, in which a line break between two lines of content
    /// becomes a blank.
    pub fn parse_folded_block_scalar(&mut self) -> (r: Result<Yaml<'a>, YamlParseError>)
        requires
            old(self).wf(),
        ensures
            old(self).yields(final(self), r, block_scalar(old(self).input(), old(self)@, true)),
    {
        self.parse_block_scalar(true)
    }

    /// Reads the block scalar that begins with `|` or `>` at the current byte.
    pub fn parse_block_scalar(&mut self, fold: bool) -> (r: Result<Yaml<'a>, YamlParseError>)
        requires
            old(self).wf(),
        ensures
            old(self).yields(final(self), r, block_scalar(old(self).input(), old(self)@, fold)),
    {
        self.advance()?;
        let head = self.parse_header();
        self.chomp_whitespace();
        self.chomp_comment();
        if !byte_is_linebreak(self.current) {
            return self.fail(Failure::BlockScalarNewline);
        }
        if !self.bump() {
            return Ok(Yaml::String(String::new()));
        }
        let mut result = String::new();
        let mut trailing: usize = 0;
        let mut content_indent: Option<usize> = head.explicit;
        let ghost goal = block_lines(
            self.input(),
            self@,
            Lines {
                text: Seq::empty(),
                pending: 0,
                indent: match head.explicit {
                    Some(n) => Some(n as nat),
                    None => None,
                },
            },
            fold,
        );
        loop
            invariant
                old(self).steps_to(self, old(self)@.at(self.idx as int)),
                0 < self.idx,
                trailing <= self.idx,
                block_lines(
                    self.input(),
                    self@,
                    Lines {
                        text: result@,
                        pending: trailing as nat,
                        indent: match content_indent {
                            Some(n) => Some(n as nat),
                            None => None,
                        },
                    },
                    fold,
                ) == goal,
                block_scalar(old(self).input(), old(self)@, fold) == (if goal.split {
                    Parsed::failed(goal.cursor, Failure::SplitCharacter)
                } else {
                    Parsed::done(goal.cursor, Node::Text(chomped(goal.lines, head.chomp)))
                }),
            decreases self.input().len() - self.idx,
        {
            let ghost before = self@;
            let line_start: usize = self.idx;
            self.chomp_whitespace();
            proof {
                ws_end_bounds(self.input(), before.idx);
            }
            let line_indent: usize = if byte_is_ws(self.current) {
                self.idx - line_start + 1
            } else {
                self.idx - line_start
            };
            if byte_is_linebreak(self.current) {
                trailing = trailing + 1;
                if !self.bump() {
                    return Ok(finish_block(result, trailing, head.chomp));
                }
            } else {
                let indent: usize = match content_indent {
                    Some(n) => n,
                    None => line_indent,
                };
                content_indent = Some(indent);
                if line_indent < indent {
                    self.indent = line_indent;
                    return Ok(finish_block(result, trailing, head.chomp));
                }
                let content_start: usize = self.idx;
                self.skip_line();
                proof {
                    line_end_bounds(self.input(), content_start as int);
                }
                let content_stop: usize = if byte_is_linebreak(self.current) {
                    self.idx
                } else {
                    self.idx + 1
                };
                match self.slice_range((content_start, content_stop)) {
                    None => {
                        return self.fail(Failure::SplitCharacter);
                    },
                    Some(content) => {
                        push_repeated(&mut result, "\n", trailing);
                        trailing = 0;
                        if !result.as_str().is_empty() {
                            if fold {
                                result.append(" ");
                            } else {
                                result.append("\n");
                            }
                        }
                        push_repeated(&mut result, " ", line_indent - indent);
                        result.append(content);
                        if byte_is_linebreak(self.current) {
                            if !self.bump() {
                                return Ok(finish_block(result, trailing, head.chomp));
                            }
                        } else {
                            return Ok(finish_block(result, trailing, head.chomp));
                        }
                    },
                }
            }
        }
    }
}

} // verus!
