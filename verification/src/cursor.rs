//! The parser's state and the steps that move its cursor over the input.
use crate::bytes::{byte_is_linebreak, byte_is_ws, is_linebreak, is_ws, HASH};
use crate::context::{
    closes, context_closes, enter_context, entered, top_context, ParseContext, ParseContextKind,
};
use crate::errors::{line_col, lookup, Failure, YamlParseError};
use crate::value::{Node, Yaml};
use vstd::prelude::*;
use vstd::string::*;
use vstd::utf8::*;

verus! {

/// How deep collections may nest one in another unless a parser is told otherwise.
pub const DEFAULT_MAX_DEPTH: usize = 256;

/// The part of a parser's state that moves while it reads: where it stands, how far the
/// current line is indented, the closing tokens it still expects and the open contexts.
pub struct Cursor {
    pub idx: int,
    pub indent: int,
    pub expected: Seq<u8>,
    pub contexts: Seq<ParseContext>,
}

/// Where the run of blanks that begins at `i` ends: at the first byte that is no blank,
/// or at the last byte of the input.
pub open spec fn ws_end(bytes: Seq<u8>, i: int) -> int
    decreases bytes.len() - i,
{
    if 0 <= i && i + 1 < bytes.len() && is_ws(bytes[i]) {
        ws_end(bytes, i + 1)
    } else {
        i
    }
}

/// Where the line that `i` lies in ends: at its line break, or at the last byte of the
/// input.
pub open spec fn line_end(bytes: Seq<u8>, i: int) -> int
    decreases bytes.len() - i,
{
    if 0 <= i && i + 1 < bytes.len() && !is_linebreak(bytes[i]) {
        line_end(bytes, i + 1)
    } else {
        i
    }
}

/// Where a comment that begins at `i` ends; `i` itself where no comment begins there.
pub open spec fn comment_end(bytes: Seq<u8>, i: int) -> int {
    if 0 <= i && i + 1 < bytes.len() && bytes[i] == HASH {
        line_end(bytes, i + 1)
    } else {
        i
    }
}

/// Where the run of line breaks that begins at `i` ends: at the first byte that is no
/// line break, or at the last byte of the input.
pub open spec fn newlines_end(bytes: Seq<u8>, i: int) -> int
    decreases bytes.len() - i,
{
    if 0 <= i && i + 1 < bytes.len() && is_linebreak(bytes[i]) {
        newlines_end(bytes, i + 1)
    } else {
        i
    }
}

/// `index` is where a character begins in `bytes`, or their end.
pub open spec fn on_boundary(bytes: Seq<u8>, index: int) -> bool {
    index == bytes.len() || (0 <= index < bytes.len() && !is_continuation_byte(bytes[index]))
}

/// The text between two offsets, where both lie on character boundaries.
pub open spec fn text_between(bytes: Seq<u8>, start: int, end: int) -> Option<Seq<char>> {
    if 0 <= start <= end <= bytes.len() && on_boundary(bytes, start) && on_boundary(bytes, end) {
        Some(decode_utf8(bytes.subrange(start, end)))
    } else {
        None
    }
}

/// The text of `source` between two offsets, where both lie on character boundaries.
pub fn text_slice<'a>(source: &'a str, start: usize, end: usize) -> (r: Option<&'a str>)
    ensures
        match r {
            Some(t) => text_between(source.spec_bytes(), start as int, end as int) == Some(t@),
            None => text_between(source.spec_bytes(), start as int, end as int) is None,
        },
{
    broadcast use encode_utf8_valid_utf8, encode_utf8_decode_utf8;

    let ghost b = source.spec_bytes();
    if start > end || end > source.as_bytes().len() {
        return None;
    }
    proof {
        assert(valid_utf8(b));
        is_char_boundary_start_end_of_seq(b);
        if end < b.len() {
            is_char_boundary_iff_not_is_continuation_byte(b, end as int);
        }
    }
    if !source.is_char_boundary(end) {
        return None;
    }
    let (head, _) = source.split_at(end);
    proof {
        let h = head.spec_bytes();
        assert(valid_utf8(h));
        is_char_boundary_start_end_of_seq(h);
        if start < end {
            is_char_boundary_iff_not_is_continuation_byte(h, start as int);
            assert(h[start as int] == b[start as int]);
        }
    }
    if !head.is_char_boundary(start) {
        return None;
    }
    let (_, body) = head.split_at(start);
    assert(body.spec_bytes() =~= b.subrange(start as int, end as int));
    assert(body@ == decode_utf8(body.spec_bytes()));
    Some(body)
}

impl Cursor {
    pub open spec fn at(self, idx: int) -> Cursor {
        Cursor { idx, ..self }
    }

    pub open spec fn indented(self, indent: int) -> Cursor {
        Cursor { indent, ..self }
    }

    pub open spec fn current(self, bytes: Seq<u8>) -> u8 {
        bytes[self.idx]
    }

    pub open spec fn peek(self, bytes: Seq<u8>) -> Option<u8> {
        self.ahead(bytes, 1)
    }

    /// The byte `n` places behind the current one.
    pub open spec fn ahead(self, bytes: Seq<u8>, n: int) -> Option<u8> {
        if 0 <= self.idx + n < bytes.len() {
            Some(bytes[self.idx + n])
        } else {
            None
        }
    }

    /// The current byte is the last one.
    pub open spec fn at_end(self, bytes: Seq<u8>) -> bool {
        self.idx == bytes.len() - 1
    }

    /// One byte further, where there is one.
    pub open spec fn bumped(self, bytes: Seq<u8>) -> Cursor {
        if self.idx + 1 < bytes.len() {
            self.at(self.idx + 1)
        } else {
            self
        }
    }

    /// Over the byte that follows and, where that one is a line break, over the one
    /// behind it too.
    pub open spec fn bumped_newline(self, bytes: Seq<u8>) -> Cursor {
        match self.peek(bytes) {
            None => self,
            Some(n) => if is_linebreak(n) {
                self.at(self.idx + 1).bumped(bytes)
            } else {
                self.at(self.idx + 1)
            },
        }
    }

    /// Whether `bumped_newline` reaches a byte to go on with.
    pub open spec fn newline_bumps(self, bytes: Seq<u8>) -> bool {
        match self.peek(bytes) {
            None => false,
            Some(n) => if is_linebreak(n) {
                self.idx + 2 < bytes.len()
            } else {
                true
            },
        }
    }

    pub open spec fn context(self) -> Option<ParseContext> {
        top_context(self.contexts)
    }

    /// With the context that opening `kind` pushes.
    pub open spec fn started(self, kind: ParseContextKind) -> Cursor {
        match entered(self.context(), kind) {
            Some(ctx) => Cursor { contexts: self.contexts.push(ctx), ..self },
            None => self,
        }
    }

    /// Without the innermost context.
    pub open spec fn ended(self) -> Cursor {
        if self.contexts.len() > 0 {
            Cursor { contexts: self.contexts.drop_last(), ..self }
        } else {
            self
        }
    }

    /// What goes wrong when `kind` is closed, if anything.
    pub open spec fn end_failure(self, kind: ParseContextKind) -> Option<Failure> {
        if self.contexts.len() == 0 {
            Some(Failure::EndContextEmpty(kind))
        } else if closes(kind, self.contexts.last()) {
            None
        } else {
            Some(Failure::EndContextMismatch(kind, self.contexts.last()))
        }
    }

    /// With one more closing token expected.
    pub open spec fn expecting(self, token: u8) -> Cursor {
        Cursor { expected: self.expected.push(token), ..self }
    }

    /// The closing token that is expected next.
    pub open spec fn awaited(self) -> Option<u8> {
        if self.expected.len() > 0 {
            Some(self.expected.last())
        } else {
            None
        }
    }

    /// Without the closing token that was expected next.
    pub open spec fn popped(self) -> Cursor {
        Cursor { expected: self.expected.drop_last(), ..self }
    }
}

/// The state of one parse: the input and a cursor into it.
pub struct Parser<'a> {
    pub current: u8,
    pub bytes: &'a [u8],
    pub source: &'a str,
    pub idx: usize,
    pub indent: usize,
    pub expected: Vec<u8>,
    pub contexts: Vec<ParseContext>,
    pub max_depth: usize,
}

impl<'a> View for Parser<'a> {
    type V = Cursor;

    open spec fn view(&self) -> Cursor {
        Cursor {
            idx: self.idx as int,
            indent: self.indent as int,
            expected: self.expected@,
            contexts: self.contexts@,
        }
    }
}

impl<'a> Parser<'a> {
    /// The input as bytes.
    pub open spec fn input(&self) -> Seq<u8> {
        self.bytes@
    }

    /// The cursor stands on a byte of the input, which is not empty, and the recorded
    /// indentation is no more than what was read.
    pub open spec fn wf(&self) -> bool {
        &&& self.bytes@ == self.source.spec_bytes()
        &&& 0 < self.bytes@.len() < usize::MAX
        &&& self.idx < self.bytes@.len()
        &&& self.current == self.bytes@[self.idx as int]
        &&& self.indent <= self.idx
    }

    /// `next` is this parser on the same input, well-formed, with its cursor at `cursor`.
    pub open spec fn steps_to(&self, next: &Parser<'a>, cursor: Cursor) -> bool {
        &&& next.wf()
        &&& next.bytes == self.bytes
        &&& next.source == self.source
        &&& next.max_depth == self.max_depth
        &&& next@ == cursor
    }

    /// A parser at the first byte of `source`. An empty input is refused at line 0,
    /// column 0.
    pub fn new(source: &'a str) -> (r: Result<Self, YamlParseError>)
        ensures
            match r {
                Ok(p) => {
                    &&& p.wf()
                    &&& p.source == source
                    &&& p@ == (Cursor { idx: 0, indent: 0, expected: Seq::empty(), contexts: Seq::empty() })
                    &&& p.max_depth == DEFAULT_MAX_DEPTH
                },
                Err(e) => {
                    &&& e.line == 0
                    &&& e.col == 0
                    &&& e.source is None
                    &&& e.msg matches Some(m) && m@ == (if source.spec_bytes().len() == 0 {
                        Failure::ExpectedInput.text()
                    } else {
                        Failure::InputTooLong.text()
                    })
                    &&& source.spec_bytes().len() == 0 || source.spec_bytes().len() >= usize::MAX
                },
            },
    {
        let bytes = source.as_bytes();
        if bytes.len() == 0 {
            return Err(
                YamlParseError {
                    line: 0,
                    col: 0,
                    msg: Some(Failure::ExpectedInput.message()),
                    source: None,
                },
            );
        }
        if bytes.len() == usize::MAX {
            return Err(
                YamlParseError {
                    line: 0,
                    col: 0,
                    msg: Some(Failure::InputTooLong.message()),
                    source: None,
                },
            );
        }
        Ok(
            Parser {
                current: bytes[0],
                bytes,
                source,
                idx: 0,
                indent: 0,
                expected: Vec::new(),
                contexts: Vec::new(),
                max_depth: DEFAULT_MAX_DEPTH,
            },
        )
    }

    /// The same parser with another limit on how deep collections may nest.
    pub fn with_max_depth(self, max_depth: usize) -> (p: Self)
        requires
            self.wf(),
        ensures
            p.wf(),
            p.bytes == self.bytes,
            p.source == self.source,
            p@ == self@,
            p.max_depth == max_depth,
    {
        let mut p = self;
        p.max_depth = max_depth;
        p
    }

    /// The innermost open context.
    pub fn context(&self) -> (r: Option<ParseContext>)
        ensures
            r == self@.context(),
    {
        let n: usize = self.contexts.len();
        if n > 0 {
            Some(self.contexts[n - 1])
        } else {
            None
        }
    }

    /// Opens a context of `kind`. A block collection inside a flow collection is
    /// refused.
    pub fn start_context(&mut self, context_kind: ParseContextKind) -> (r: Result<
        (),
        YamlParseError,
    >)
        requires
            old(self).wf(),
        ensures
            match r {
                Ok(_) => entered(old(self)@.context(), context_kind) is Some && old(
                    self,
                ).steps_to(final(self), old(self)@.started(context_kind)),
                Err(e) => entered(old(self)@.context(), context_kind) is None && old(
                    self,
                ).steps_to(final(self), old(self)@) && e.reports(
                    old(self).input(),
                    old(self)@.idx,
                    Failure::BlockInFlow,
                ),
            },
    {
        match enter_context(self.context(), context_kind) {
            Some(ctx) => {
                self.contexts.push(ctx);
                Ok(())
            },
            None => self.fail(Failure::BlockInFlow),
        }
    }

    /// Closes the innermost context, which must be of `expect`.
    pub fn end_context(&mut self, expect: ParseContextKind) -> (r: Result<(), YamlParseError>)
        requires
            old(self).wf(),
        ensures
            old(self).steps_to(final(self), old(self)@.ended()),
            match r {
                Ok(_) => old(self)@.end_failure(expect) is None,
                Err(e) => old(self)@.end_failure(expect) matches Some(f) && e.reports(
                    old(self).input(),
                    old(self)@.idx,
                    f,
                ),
            },
    {
        match self.contexts.pop() {
            Some(actual) => {
                if context_closes(expect, actual) {
                    Ok(())
                } else {
                    self.fail(Failure::EndContextMismatch(expect, actual))
                }
            },
            None => {
                assert(self.contexts@ =~= old(self).contexts@);
                self.fail(Failure::EndContextEmpty(expect))
            },
        }
    }

    /// Moves one byte on. Says whether there was a byte to move to.
    pub fn bump(&mut self) -> (moved: bool)
        requires
            old(self).wf(),
        ensures
            moved == (old(self)@.idx + 1 < old(self).input().len()),
            old(self).steps_to(final(self), old(self)@.bumped(old(self).input())),
    {
        if self.idx + 1 < self.bytes.len() {
            self.idx = self.idx + 1;
            self.current = self.bytes[self.idx];
            true
        } else {
            false
        }
    }

    /// Moves over the byte that follows and, where that one is a line break, over the
    /// one behind it too. Says whether it reached a byte to go on with.
    pub fn bump_newline(&mut self) -> (moved: bool)
        requires
            old(self).wf(),
        ensures
            moved == old(self)@.newline_bumps(old(self).input()),
            old(self).steps_to(final(self), old(self)@.bumped_newline(old(self).input())),
    {
        match self.peek() {
            Some(next) => {
                self.idx = self.idx + 1;
                self.current = next;
                if byte_is_linebreak(next) {
                    self.bump()
                } else {
                    true
                }
            },
            None => false,
        }
    }

    /// Moves one byte on, which must be there.
    pub fn advance(&mut self) -> (r: Result<(), YamlParseError>)
        requires
            old(self).wf(),
        ensures
            old(self).steps_to(final(self), old(self)@.bumped(old(self).input())),
            match r {
                Ok(_) => old(self)@.idx + 1 < old(self).input().len(),
                Err(e) => old(self)@.idx + 1 >= old(self).input().len() && e.reports(
                    old(self).input(),
                    old(self)@.idx,
                    Failure::UnexpectedEnd,
                ),
            },
    {
        if self.bump() {
            Ok(())
        } else {
            self.fail(Failure::UnexpectedEnd)
        }
    }

    /// The byte behind the current one.
    pub fn peek(&self) -> (r: Option<u8>)
        requires
            self.wf(),
        ensures
            r == self@.peek(self.input()),
    {
        if self.idx + 1 < self.bytes.len() {
            Some(self.bytes[self.idx + 1])
        } else {
            None
        }
    }

    /// The current byte is the last one.
    pub fn at_end(&self) -> (r: bool)
        requires
            self.wf(),
        ensures
            r == self@.at_end(self.input()),
    {
        self.idx == self.bytes.len() - 1
    }

    /// Whether `stop` holds of the byte behind the current one; `false` at the end.
    pub fn check_ahead_1<F: Fn(u8) -> bool>(&self, stop: F) -> (r: bool)
        requires
            self.wf(),
            forall|b: u8| stop.requires((b,)),
        ensures
            match self@.peek(self.input()) {
                Some(b) => stop.ensures((b,), r),
                None => !r,
            },
    {
        self.check_ahead_n(1, stop)
    }

    /// Whether `stop` holds of the byte `n` places behind the current one; `false`
    /// where the input ends before it.
    pub fn check_ahead_n<F: Fn(u8) -> bool>(&self, n: usize, stop: F) -> (r: bool)
        requires
            self.wf(),
            forall|b: u8| stop.requires((b,)),
        ensures
            match self@.ahead(self.input(), n as int) {
                Some(b) => stop.ensures((b,), r),
                None => !r,
            },
    {
        if n < self.bytes.len() - self.idx {
            stop(self.bytes[self.idx + n])
        } else {
            false
        }
    }

    /// Line and column that an error at the current byte is reported at.
    pub fn lookup_line_col(&self) -> (r: (usize, usize))
        requires
            self.wf(),
        ensures
            r.0 as int == line_col(self.input(), self@.idx).0,
            r.1 as int == line_col(self.input(), self@.idx).1,
    {
        lookup(self.bytes, self.idx)
    }

    /// An error at the current byte that says which byte was found.
    pub fn parse_error<T>(&self) -> (r: Result<T, YamlParseError>)
        requires
            self.wf(),
        ensures
            r matches Err(e) && e.reports(
                self.input(),
                self@.idx,
                Failure::Unexpectedly(self@.current(self.input())),
            ),
    {
        self.fail(Failure::Unexpectedly(self.current))
    }

    /// An error at the current byte with `msg` as its message.
    pub fn make_parse_error_with_msg(&self, msg: &str) -> (e: YamlParseError)
        requires
            self.wf(),
        ensures
            e.line as int == line_col(self.input(), self@.idx).0,
            e.col as int == line_col(self.input(), self@.idx).1,
            e.msg matches Some(m) && m@ == msg@,
            e.source is None,
    {
        let (line, col) = self.lookup_line_col();
        YamlParseError { line, col, msg: Some(String::from_str(msg)), source: None }
    }

    /// `make_parse_error_with_msg` as the failure of any result.
    pub fn parse_error_with_msg<T>(&self, msg: &str) -> (r: Result<T, YamlParseError>)
        requires
            self.wf(),
        ensures
            r matches Err(e) && {
                &&& e.line as int == line_col(self.input(), self@.idx).0
                &&& e.col as int == line_col(self.input(), self@.idx).1
                &&& e.msg matches Some(m) && m@ == msg@
                &&& e.source is None
            },
    {
        Err(self.make_parse_error_with_msg(msg))
    }

    /// An error at the current byte that reports `failure`.
    pub fn fail<T>(&self, failure: Failure) -> (r: Result<T, YamlParseError>)
        requires
            self.wf(),
        ensures
            r matches Err(e) && e.reports(self.input(), self@.idx, failure),
    {
        let text = failure.message();
        self.parse_error_with_msg(text.as_str())
    }

    /// The text between two offsets, where both lie on character boundaries; `end` is
    /// first cut down to the length of the input.
    pub fn slice_range(&self, range: (usize, usize)) -> (r: Option<&'a str>)
        requires
            self.wf(),
        ensures
            match r {
                Some(t) => text_between(
                    self.input(),
                    range.0 as int,
                    vstd::math::min(range.1 as int, self.input().len() as int),
                ) == Some(t@),
                None => text_between(
                    self.input(),
                    range.0 as int,
                    vstd::math::min(range.1 as int, self.input().len() as int),
                ) is None,
            },
    {
        let end: usize = if range.1 < self.bytes.len() {
            range.1
        } else {
            self.bytes.len()
        };
        text_slice(self.source, range.0, end)
    }

    /// Skips a comment, where one begins at the current byte: up to the line break that
    /// ends it, or to the last byte of the input.
    pub fn chomp_comment(&mut self)
        requires
            old(self).wf(),
        ensures
            old(self).steps_to(
                final(self),
                old(self)@.at(comment_end(old(self).input(), old(self)@.idx)),
            ),
    {
        if self.current == HASH {
            if !self.bump() {
                return ;
            }
            while !byte_is_linebreak(self.current) && self.idx + 1 < self.bytes.len()
                invariant
                    old(self).steps_to(self, old(self)@.at(self.idx as int)),
                    old(self)@.idx < self.idx,
                    line_end(self.input(), self.idx as int) == comment_end(
                        old(self).input(),
                        old(self)@.idx,
                    ),
                decreases self.input().len() - self.idx,
            {
                self.bump();
            }
        }
    }

    /// Skips to the line break that ends the current line, or to the last byte of the
    /// input.
    pub fn skip_line(&mut self)
        requires
            old(self).wf(),
        ensures
            old(self).steps_to(final(self), old(self)@.at(line_end(old(self).input(), old(self)@.idx))),
    {
        while !byte_is_linebreak(self.current) && self.idx + 1 < self.bytes.len()
            invariant
                old(self).steps_to(self, old(self)@.at(self.idx as int)),
                line_end(self.input(), self.idx as int) == line_end(
                    old(self).input(),
                    old(self)@.idx,
                ),
            decreases self.input().len() - self.idx,
        {
            self.bump();
        }
    }

    /// Skips blanks up to the first byte that is none, or to the last byte of the input.
    pub fn chomp_whitespace(&mut self)
        requires
            old(self).wf(),
        ensures
            old(self).steps_to(final(self), old(self)@.at(ws_end(old(self).input(), old(self)@.idx))),
    {
        while byte_is_ws(self.current) && self.idx + 1 < self.bytes.len()
            invariant
                old(self).steps_to(self, old(self)@.at(self.idx as int)),
                old(self)@.idx <= self.idx,
                ws_end(self.input(), self.idx as int) == ws_end(old(self).input(), old(self)@.idx),
            decreases self.input().len() - self.idx,
        {
            self.bump();
        }
    }

    /// Skips blanks as `chomp_whitespace` does and records how many as the indentation
    /// of the current line.
    pub fn chomp_indent(&mut self)
        requires
            old(self).wf(),
        ensures
            old(self).steps_to(
                final(self),
                old(self)@.at(ws_end(old(self).input(), old(self)@.idx)).indented(
                    ws_end(old(self).input(), old(self)@.idx) - old(self)@.idx,
                ),
            ),
    {
        let mut idt: usize = 0;
        while byte_is_ws(self.current) && self.idx + 1 < self.bytes.len()
            invariant
                old(self).steps_to(self, old(self)@.at(self.idx as int)),
                old(self)@.idx + idt == self.idx,
                ws_end(self.input(), self.idx as int) == ws_end(old(self).input(), old(self)@.idx),
            decreases self.input().len() - self.idx,
        {
            self.bump();
            idt = idt + 1;
        }
        self.indent = idt;
    }

    /// Skips line breaks up to the first byte that is none. Fails where the input ends
    /// with them.
    pub fn chomp_newlines(&mut self) -> (r: Result<(), YamlParseError>)
        requires
            old(self).wf(),
        ensures
            old(self).steps_to(
                final(self),
                old(self)@.at(newlines_end(old(self).input(), old(self)@.idx)),
            ),
            match r {
                Ok(_) => !is_linebreak(final(self)@.current(old(self).input())),
                Err(e) => is_linebreak(final(self)@.current(old(self).input())) && e.reports(
                    old(self).input(),
                    final(self)@.idx,
                    Failure::UnexpectedEnd,
                ),
            },
    {
        while byte_is_linebreak(self.current)
            invariant
                old(self).steps_to(self, old(self)@.at(self.idx as int)),
                old(self)@.idx <= self.idx,
                newlines_end(self.input(), self.idx as int) == newlines_end(
                    old(self).input(),
                    old(self)@.idx,
                ),
            decreases self.input().len() - self.idx,
        {
            if !self.bump() {
                return self.fail(Failure::UnexpectedEnd);
            }
        }
        Ok(())
    }

    /// Takes `expect` off the closing tokens that are expected, where it is the one
    /// expected next.
    pub fn pop_if_match(&mut self, expect: u8) -> (r: Result<(), YamlParseError>)
        requires
            old(self).wf(),
        ensures
            match r {
                Ok(_) => old(self)@.awaited() == Some(expect) && old(self).steps_to(
                    final(self),
                    old(self)@.popped(),
                ),
                Err(e) => old(self)@.awaited() != Some(expect) && old(self).steps_to(
                    final(self),
                    old(self)@,
                ) && e.reports(old(self).input(), old(self)@.idx, Failure::TokenNotExpected),
            },
    {
        let n: usize = self.expected.len();
        if n > 0 && self.expected[n - 1] == expect {
            self.expected.pop();
            Ok(())
        } else {
            self.fail(Failure::TokenNotExpected)
        }
    }
}

/// How reading one value ends: where the cursor is left, and the value or the failure.
pub struct Parsed {
    pub cursor: Cursor,
    pub result: Result<Node, Failure>,
}

impl Parsed {
    pub open spec fn done(cursor: Cursor, node: Node) -> Parsed {
        Parsed { cursor, result: Ok(node) }
    }

    pub open spec fn failed(cursor: Cursor, failure: Failure) -> Parsed {
        Parsed { cursor, result: Err(failure) }
    }
}

impl<'a> Parser<'a> {
    /// `next` and `r` are what `parsed` describes: the parser stands where it says, and
    /// `r` is its value, or an error that reports its failure where the cursor stands.
    pub open spec fn yields(
        &self,
        next: &Parser<'a>,
        r: Result<Yaml<'a>, YamlParseError>,
        parsed: Parsed,
    ) -> bool {
        &&& self.steps_to(next, parsed.cursor)
        &&& match r {
            Ok(y) => parsed.result == Ok::<Node, Failure>(y@),
            Err(e) => parsed.result matches Err(f) && e.reports(
                self.input(),
                parsed.cursor.idx,
                f,
            ),
        }
    }
}

/// A run of blanks ends at or behind the byte it begins at, and on a byte of the input.
pub proof fn ws_end_bounds(bytes: Seq<u8>, i: int)
    ensures
        i <= ws_end(bytes, i),
        0 <= i < bytes.len() ==> ws_end(bytes, i) < bytes.len(),
        0 <= i < bytes.len() ==> !is_ws(bytes[ws_end(bytes, i)]) || ws_end(bytes, i)
            == bytes.len() - 1,
    decreases bytes.len() - i,
{
    if 0 <= i && i + 1 < bytes.len() && is_ws(bytes[i]) {
        ws_end_bounds(bytes, i + 1);
    }
}

/// A line ends at or behind any byte of it, and on a byte of the input.
pub proof fn line_end_bounds(bytes: Seq<u8>, i: int)
    ensures
        i <= line_end(bytes, i),
        0 <= i < bytes.len() ==> line_end(bytes, i) < bytes.len(),
        0 <= i < bytes.len() ==> is_linebreak(bytes[line_end(bytes, i)]) || line_end(bytes, i)
            == bytes.len() - 1,
    decreases bytes.len() - i,
{
    if 0 <= i && i + 1 < bytes.len() && !is_linebreak(bytes[i]) {
        line_end_bounds(bytes, i + 1);
    }
}

/// A comment ends at or behind the byte it begins at, and on a byte of the input.
pub proof fn comment_end_bounds(bytes: Seq<u8>, i: int)
    ensures
        i <= comment_end(bytes, i),
        0 <= i < bytes.len() ==> comment_end(bytes, i) < bytes.len(),
        0 <= i && i + 1 < bytes.len() && bytes[i] == HASH ==> i < comment_end(bytes, i),
{
    line_end_bounds(bytes, i + 1);
}

/// A run of line breaks ends at or behind the byte it begins at, and on a byte of the
/// input.
pub proof fn newlines_end_bounds(bytes: Seq<u8>, i: int)
    ensures
        i <= newlines_end(bytes, i),
        0 <= i < bytes.len() ==> newlines_end(bytes, i) < bytes.len(),
        0 <= i < bytes.len() && is_linebreak(bytes[i]) && !is_linebreak(
            bytes[newlines_end(bytes, i)],
        ) ==> i < newlines_end(bytes, i),
    decreases bytes.len() - i,
{
    if 0 <= i && i + 1 < bytes.len() && is_linebreak(bytes[i]) {
        newlines_end_bounds(bytes, i + 1);
    }
}

} // verus!
