//! Scans over the bytes of a scalar, and the scalars they delimit.
use crate::bytes::{
    byte_is_linebreak, byte_is_ns_plain, is_linebreak, is_ns_plain, DOUBLE_QUOTE, HASH, LBRACKET,
    LPAREN, RBRACKET, RPAREN, SINGLE_QUOTE,
};
use crate::context::ParseContext;
use crate::cursor::{
    comment_end, text_between, ws_end, ws_end_bounds, Cursor, Parsed, Parser,
};
use crate::errors::{Failure, YamlParseError};
use crate::scalar::inferred;
use crate::value::{Node, Yaml};
use vstd::prelude::*;

verus! {

/// What a scan takes: the inside of a quoted scalar, or a plain scalar.
#[derive(Clone, Copy, Debug, PartialEq, Eq, Structural)]
pub enum ScanKind {
    DoubleQuoted,
    SingleQuoted,
    Plain,
}

/// The rule by which a scan accepts bytes, with what it has to remember between them: how
/// many square brackets and how many parentheses are open in a plain scalar.
#[derive(Clone, Copy, Debug)]
pub struct Scan {
    pub kind: ScanKind,
    pub bracket_depth: usize,
    pub paren_depth: usize,
    pub context: Option<ParseContext>,
}

/// One more, as far as the machine counts.
pub open spec fn deeper(depth: usize) -> usize {
    if depth < usize::MAX {
        (depth + 1) as usize
    } else {
        depth
    }
}

/// One less, and never less than none.
pub open spec fn shallower(depth: usize) -> usize {
    if depth > 0 {
        (depth - 1) as usize
    } else {
        depth
    }
}

impl Scan {
    pub open spec fn quoted(kind: ScanKind) -> Scan {
        Scan { kind, bracket_depth: 0, paren_depth: 0, context: None }
    }

    pub open spec fn plain(context: Option<ParseContext>) -> Scan {
        Scan { kind: ScanKind::Plain, bracket_depth: 0, paren_depth: 0, context }
    }

    /// The scan after it has seen `tok`.
    pub open spec fn after(self, tok: u8) -> Scan {
        if self.kind != ScanKind::Plain {
            self
        } else if tok == LBRACKET {
            Scan { bracket_depth: deeper(self.bracket_depth), ..self }
        } else if tok == RBRACKET {
            Scan { bracket_depth: shallower(self.bracket_depth), ..self }
        } else if tok == LPAREN {
            Scan { paren_depth: deeper(self.paren_depth), ..self }
        } else if tok == RPAREN {
            Scan { paren_depth: shallower(self.paren_depth), ..self }
        } else {
            self
        }
    }

    /// Whether the scan takes `tok`, which `nxt` follows.
    ///
    /// Inside quotes every byte but the closing quote is taken. In a plain scalar, while
    /// a bracket or a parenthesis is open (`tok` counted), every byte but a line break
    /// is; otherwise the bytes that continue a plain scalar in the scan's context are.
    pub open spec fn takes(self, tok: u8, nxt: Option<u8>) -> bool {
        match self.kind {
            ScanKind::DoubleQuoted => tok != DOUBLE_QUOTE,
            ScanKind::SingleQuoted => tok != SINGLE_QUOTE,
            ScanKind::Plain => {
                let seen = self.after(tok);
                if seen.bracket_depth > 0 || seen.paren_depth > 0 {
                    !is_linebreak(tok)
                } else {
                    is_ns_plain(tok, nxt, self.context)
                }
            },
        }
    }

    /// A scan for the inside of a quoted scalar.
    pub fn new_quoted(kind: ScanKind) -> (s: Scan)
        ensures
            s == Scan::quoted(kind),
    {
        Scan { kind, bracket_depth: 0, paren_depth: 0, context: None }
    }

    /// A scan for a plain scalar in `context`.
    pub fn new_plain(context: Option<ParseContext>) -> (s: Scan)
        ensures
            s == Scan::plain(context),
    {
        Scan { kind: ScanKind::Plain, bracket_depth: 0, paren_depth: 0, context }
    }

    /// Shows the scan one byte and says whether it takes it.
    pub fn accept(&mut self, tok: u8, nxt: Option<u8>) -> (r: bool)
        ensures
            r == old(self).takes(tok, nxt),
            *final(self) == old(self).after(tok),
    {
        match self.kind {
            ScanKind::DoubleQuoted => tok != DOUBLE_QUOTE,
            ScanKind::SingleQuoted => tok != SINGLE_QUOTE,
            ScanKind::Plain => {
                if tok == LBRACKET {
                    if self.bracket_depth < usize::MAX {
                        self.bracket_depth = self.bracket_depth + 1;
                    }
                } else if tok == RBRACKET {
                    if self.bracket_depth > 0 {
                        self.bracket_depth = self.bracket_depth - 1;
                    }
                } else if tok == LPAREN {
                    if self.paren_depth < usize::MAX {
                        self.paren_depth = self.paren_depth + 1;
                    }
                } else if tok == RPAREN {
                    if self.paren_depth > 0 {
                        self.paren_depth = self.paren_depth - 1;
                    }
                }
                if self.bracket_depth > 0 || self.paren_depth > 0 {
                    !byte_is_linebreak(tok)
                } else {
                    byte_is_ns_plain(tok, nxt, self.context)
                }
            },
        }
    }
}

/// How a scan from one byte on ends.
pub struct Scanned {
    /// The first byte that was not taken, or the length of the input.
    pub end: int,
    /// The scan after the last byte it was shown.
    pub scan: Scan,
    /// A byte that was not taken ended the scan, not the input.
    pub stopped: bool,
}

/// The scan `scan` from byte `i` on.
pub open spec fn scan_from(bytes: Seq<u8>, i: int, scan: Scan) -> Scanned
    decreases bytes.len() - i,
{
    if 0 <= i < bytes.len() {
        let nxt = if i + 1 < bytes.len() {
            Some(bytes[i + 1])
        } else {
            None
        };
        if !scan.takes(bytes[i], nxt) {
            Scanned { end: i, scan: scan.after(bytes[i]), stopped: true }
        } else if i + 1 < bytes.len() {
            scan_from(bytes, i + 1, scan.after(bytes[i]))
        } else {
            Scanned { end: i + 1, scan: scan.after(bytes[i]), stopped: false }
        }
    } else {
        Scanned { end: i, scan, stopped: false }
    }
}

/// A scan ends at or behind the byte it began at, within the input; one that a byte
/// ended ends on a byte.
pub proof fn scan_from_bounds(bytes: Seq<u8>, i: int, scan: Scan)
    ensures
        i <= scan_from(bytes, i, scan).end,
        0 <= i < bytes.len() ==> scan_from(bytes, i, scan).end <= bytes.len(),
        scan_from(bytes, i, scan).stopped ==> scan_from(bytes, i, scan).end < bytes.len(),
        0 <= i < bytes.len() && !scan_from(bytes, i, scan).stopped ==> scan_from(
            bytes,
            i,
            scan,
        ).end == bytes.len(),
    decreases bytes.len() - i,
{
    if 0 <= i < bytes.len() {
        let nxt = if i + 1 < bytes.len() {
            Some(bytes[i + 1])
        } else {
            None
        };
        if scan.takes(bytes[i], nxt) && i + 1 < bytes.len() {
            scan_from_bounds(bytes, i + 1, scan.after(bytes[i]));
        }
    }
}

/// How a quoted scalar that begins at the cursor is read: the text between the quotes
/// as it stands, never as a number or a truth value.
pub open spec fn quoted_scalar(bytes: Seq<u8>, c: Cursor, kind: ScanKind) -> Parsed {
    if c.idx + 1 >= bytes.len() {
        Parsed::failed(c, Failure::UnexpectedEnd)
    } else {
        let s = scan_from(bytes, c.idx + 1, Scan::quoted(kind));
        if !s.stopped {
            Parsed::failed(
                c.at(bytes.len() - 1),
                if kind == ScanKind::DoubleQuoted {
                    Failure::UnterminatedDouble
                } else {
                    Failure::UnterminatedSingle
                },
            )
        } else {
            let after = c.at(s.end).bumped(bytes);
            match text_between(bytes, c.idx + 1, s.end) {
                Some(t) => Parsed::done(after, Node::Scalar(t)),
                None => Parsed::failed(after, Failure::SplitCharacter),
            }
        }
    }
}

/// How a plain scalar goes on after a run of its bytes that ended at `end`: blanks are
/// skipped, and a further run, if one follows, belongs to the scalar too. A comment
/// ends the scalar and is no part of it. Gives where the cursor is left and where the
/// scalar ends.
pub open spec fn plain_rest(bytes: Seq<u8>, c: Cursor, scan: Scan, end: int) -> (Cursor, int)
    decreases bytes.len() - c.idx,
{
    let i = ws_end(bytes, c.idx);
    if 0 <= i < bytes.len() && bytes[i] == HASH {
        (c.at(comment_end(bytes, i)), end)
    } else {
        let s = scan_from(bytes, i, scan);
        let next = c.at(i).scanned(bytes, s);
        if s.end == i {
            (next, end)
        } else if next.at_end(bytes) {
            (next, s.end)
        } else {
            proof {
                ws_end_bounds(bytes, c.idx);
                scan_from_bounds(bytes, i, scan);
            }
            plain_rest(bytes, next, s.scan, s.end)
        }
    }
}

/// How a plain scalar that begins at the cursor is read: from its first byte to the end
/// of its last run, as the kind of value that this text writes.
pub open spec fn plain_scalar(bytes: Seq<u8>, c: Cursor) -> Parsed {
    let s = scan_from(bytes, c.idx, Scan::plain(c.context()));
    let rest = plain_rest(bytes, c.scanned(bytes, s), s.scan, s.end);
    match text_between(bytes, c.idx, rest.1) {
        Some(t) => Parsed::done(rest.0, inferred(t)),
        None => Parsed::failed(rest.0, Failure::SplitCharacter),
    }
}

/// How the scalar that begins at the cursor is read.
pub open spec fn scalar(bytes: Seq<u8>, c: Cursor) -> Parsed {
    if c.current(bytes) == DOUBLE_QUOTE {
        quoted_scalar(bytes, c, ScanKind::DoubleQuoted)
    } else if c.current(bytes) == SINGLE_QUOTE {
        quoted_scalar(bytes, c, ScanKind::SingleQuoted)
    } else {
        plain_scalar(bytes, c)
    }
}

/// A quoted scalar is read as text and as nothing else, whatever stands between the
/// quotes.
pub proof fn quoted_scalar_is_text(bytes: Seq<u8>, c: Cursor, kind: ScanKind)
    ensures
        quoted_scalar(bytes, c, kind).result matches Ok(node) ==> node is Scalar,
{
}

impl Cursor {
    /// Where a scan that ended as `scanned` leaves the cursor: on the byte that ended
    /// it, or on the last byte of the input.
    pub open spec fn scanned(self, bytes: Seq<u8>, scanned: Scanned) -> Cursor {
        if scanned.stopped {
            self.at(scanned.end)
        } else {
            self.at(bytes.len() - 1)
        }
    }
}

impl<'a> Parser<'a> {
    /// Takes bytes from the current one on for as long as `accept` takes them.
    ///
    /// Returns the offsets of the first byte taken and of the first not taken: as `Ok`
    /// where a byte ended the scan, on which the cursor then stands; as `Err` where the
    /// input did, with the cursor on its last byte.
    pub fn take_while(&mut self, accept: &mut Scan) -> (r: Result<(usize, usize), (usize, usize)>)
        requires
            old(self).wf(),
        ensures
            ({
                let s = scan_from(old(self).input(), old(self)@.idx, *old(accept));
                &&& *final(accept) == s.scan
                &&& old(self).steps_to(final(self), old(self)@.scanned(old(self).input(), s))
                &&& if s.stopped {
                    r == Ok::<(usize, usize), (usize, usize)>((old(self).idx, s.end as usize))
                } else {
                    r == Err::<(usize, usize), (usize, usize)>((old(self).idx, s.end as usize))
                }
            }),
    {
        let start: usize = self.idx;
        let mut end: usize = start;
        loop
            invariant
                old(self).steps_to(self, old(self)@.at(self.idx as int)),
                start == old(self).idx,
                end == self.idx,
                scan_from(self.input(), self.idx as int, *accept) == scan_from(
                    old(self).input(),
                    old(self)@.idx,
                    *old(accept),
                ),
            decreases self.input().len() - self.idx,
        {
            let peeked = self.peek();
            if !accept.accept(self.current, peeked) {
                return Ok((start, end));
            } else if !self.bump() {
                end = end + 1;
                return Err((start, end));
            }
            end = end + 1;
        }
    }
}

impl<'a> Parser<'a> {
    fn parse_quoted(&mut self, kind: ScanKind) -> (r: Result<Yaml<'a>, YamlParseError>)
        requires
            old(self).wf(),
            kind != ScanKind::Plain,
        ensures
            old(self).yields(final(self), r, quoted_scalar(old(self).input(), old(self)@, kind)),
    {
        self.advance()?;
        let mut accept = Scan::new_quoted(kind);
        match self.take_while(&mut accept) {
            Ok((start, end)) => {
                proof {
                    scan_from_bounds(old(self).input(), old(self)@.idx + 1, Scan::quoted(kind));
                }
                self.bump();
                match self.slice_range((start, end)) {
                    Some(content) => Ok(Yaml::Scalar(content)),
                    None => self.fail(Failure::SplitCharacter),
                }
            },
            Err(_) => {
                match kind {
                    ScanKind::DoubleQuoted => self.fail(Failure::UnterminatedDouble),
                    _ => self.fail(Failure::UnterminatedSingle),
                }
            },
        }
    }

    fn finish_plain(&self, start: usize, end: usize) -> (r: Result<Yaml<'a>, YamlParseError>)
        requires
            self.wf(),
            start <= end <= self.input().len(),
        ensures
            match r {
                Ok(y) => text_between(self.input(), start as int, end as int) matches Some(t)
                    && y@ == inferred(t),
                Err(e) => text_between(self.input(), start as int, end as int) is None
                    && e.reports(self.input(), self@.idx, Failure::SplitCharacter),
            },
    {
        match self.slice_range((start, end)) {
            Some(literal) => Ok(Self::infer_scalar_type(literal)),
            None => self.fail(Failure::SplitCharacter),
        }
    }

    fn parse_plain(&mut self) -> (r: Result<Yaml<'a>, YamlParseError>)
        requires
            old(self).wf(),
        ensures
            old(self).yields(final(self), r, plain_scalar(old(self).input(), old(self)@)),
    {
        let mut accept = Scan::new_plain(self.context());
        let first = self.take_while(&mut accept);
        let (start, first_end) = match first {
            Ok(range) => range,
            Err(range) => range,
        };
        let mut end: usize = first_end;
        let ghost first_scan = scan_from(
            old(self).input(),
            old(self)@.idx,
            Scan::plain(old(self)@.context()),
        );
        let ghost goal = plain_rest(
            old(self).input(),
            old(self)@.scanned(old(self).input(), first_scan),
            first_scan.scan,
            first_scan.end,
        );
        proof {
            scan_from_bounds(old(self).input(), old(self)@.idx, Scan::plain(old(self)@.context()));
        }
        loop
            invariant
                old(self).steps_to(self, old(self)@.at(self.idx as int)),
                start == old(self).idx,
                start <= self.idx,
                start <= end <= self.input().len(),
                plain_rest(self.input(), self@, accept, end as int) == goal,
                plain_scalar(old(self).input(), old(self)@) == (match text_between(
                    old(self).input(),
                    start as int,
                    goal.1,
                ) {
                    Some(t) => Parsed::done(goal.0, inferred(t)),
                    None => Parsed::failed(goal.0, Failure::SplitCharacter),
                }),
            decreases self.input().len() - self.idx,
        {
            let ghost before = self@;
            let ghost scan_before = accept;
            self.chomp_whitespace();
            proof {
                ws_end_bounds(self.input(), before.idx);
                scan_from_bounds(self.input(), self@.idx, scan_before);
            }
            if self.current == HASH {
                self.chomp_comment();
                return self.finish_plain(start, end);
            }
            let (s, e) = match self.take_while(&mut accept) {
                Ok(range) => range,
                Err(range) => range,
            };
            if s == e {
                return self.finish_plain(start, end);
            }
            end = e;
            if self.at_end() {
                return self.finish_plain(start, end);
            }
        }
    }

    /// Reads the scalar that begins at the current byte: quoted, as it stands between
    /// the quotes; plain, as the kind of value that its text writes.
    pub fn parse_scalar(&mut self) -> (r: Result<Yaml<'a>, YamlParseError>)
        requires
            old(self).wf(),
        ensures
            old(self).yields(final(self), r, scalar(old(self).input(), old(self)@)),
    {
        if self.current == DOUBLE_QUOTE {
            self.parse_quoted(ScanKind::DoubleQuoted)
        } else if self.current == SINGLE_QUOTE {
            self.parse_quoted(ScanKind::SingleQuoted)
        } else {
            self.parse_plain()
        }
    }
}

} // verus!
