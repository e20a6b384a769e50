//! What a text is read as: the values, collections and tags of the language, stated
//! over the bytes of the text and a cursor into them.
use crate::block::block_scalar;
use crate::bytes::{
    is_linebreak, is_scalar_start, is_ws, BANG, COLON, COMMA, DASH, GREATER, HASH, LBRACE,
    LBRACKET, PIPE, RBRACE, RBRACKET,
};
use crate::context::{in_flow, ParseContextKind};
use crate::cursor::{
    comment_end, comment_end_bounds, line_end, line_end_bounds, newlines_end,
    newlines_end_bounds, ws_end, ws_end_bounds, Cursor, Parsed,
};
use crate::errors::Failure;
use crate::scan::scalar;
use crate::tag::{ends_input, tag, tag_wrapped};
use crate::value::{Node, Pair};
use vstd::prelude::*;

verus! {

/// Where the gap that begins at `i` ends: the first byte from `i` on that is no blank,
/// no line break and in no comment, or the last byte of the input.
pub open spec fn gap_end(bytes: Seq<u8>, i: int) -> int
    decreases bytes.len() - i,
{
    if 0 <= i && i + 1 < bytes.len() && (is_ws(bytes[i]) || is_linebreak(bytes[i])) {
        gap_end(bytes, i + 1)
    } else if 0 <= i && i + 1 < bytes.len() && bytes[i] == HASH {
        proof {
            line_end_bounds(bytes, i + 1);
        }
        gap_end(bytes, line_end(bytes, i + 1))
    } else {
        i
    }
}

/// How one round of reading a collection ends.
pub enum Step<T> {
    /// The collection is read, or reading it failed.
    Stop(Parsed),
    /// There is more to read: where the cursor stands, and what has been read.
    More(Cursor, Seq<T>),
}

impl Cursor {
    /// The cursor stands on a byte of `bytes`.
    pub open spec fn within(self, bytes: Seq<u8>) -> bool {
        0 <= self.idx < bytes.len()
    }

    /// Behind blanks and a comment.
    pub open spec fn trimmed(self, bytes: Seq<u8>) -> Cursor {
        self.at(comment_end(bytes, ws_end(bytes, self.idx)))
    }

    /// Behind the blanks that the current line begins with, their number recorded as its
    /// indentation.
    pub open spec fn indent_chomped(self, bytes: Seq<u8>) -> Cursor {
        self.at(ws_end(bytes, self.idx)).indented(ws_end(bytes, self.idx) - self.idx)
    }

    /// With the innermost context closed as one of `kind`: the cursor, and what went
    /// wrong, if anything.
    pub open spec fn closed(self, kind: ParseContextKind, node: Node) -> Parsed {
        match self.end_failure(kind) {
            Some(f) => Parsed::failed(self.ended(), f),
            None => Parsed::done(self.ended(), node),
        }
    }
}

/// How the value that begins at the cursor is read, with `depth` levels of nesting left.
///
/// Comments, line breaks, a document start `---` and blanks before the value are
/// skipped; a line break resets the indentation and blanks at the start of a line set
/// it. Then the current byte decides: a scalar, a flow mapping, a flow sequence, a
/// block sequence, a tagged value or a block scalar begins, and a scalar or a flow
/// collection that a colon follows becomes the first key of a block mapping.
pub open spec fn value(bytes: Seq<u8>, c: Cursor, depth: nat) -> Parsed
    decreases depth, 0int, bytes.len() - c.idx,
{
    let cur = c.current(bytes);
    if depth == 0 {
        Parsed::failed(c, Failure::TooDeep)
    } else if !c.within(bytes) {
        Parsed::failed(c, Failure::UnexpectedEnd)
    } else if cur == HASH {
        let next = c.at(comment_end(bytes, c.idx));
        if next.idx <= c.idx {
            Parsed::failed(next, Failure::UnexpectedEnd)
        } else {
            proof {
                comment_end_bounds(bytes, c.idx);
            }
            value(bytes, next, depth)
        }
    } else if cur == DASH && c.ahead(bytes, 1) == Some(DASH) && c.ahead(bytes, 2) == Some(DASH) {
        value(bytes, c.bumped(bytes).bumped(bytes).bumped(bytes), depth)
    } else if is_linebreak(cur) {
        let next = c.at(newlines_end(bytes, c.idx));
        if is_linebreak(next.current(bytes)) {
            Parsed::failed(next, Failure::UnexpectedEnd)
        } else {
            proof {
                newlines_end_bounds(bytes, c.idx);
            }
            value(bytes, next.indented(0), depth)
        }
    } else if is_scalar_start(cur, c.peek(bytes), c.context()) {
        maybe_scalar(bytes, c, (depth - 1) as nat)
    } else if cur == LBRACE {
        let inner = flow_mapping(bytes, c.expecting(RBRACE), (depth - 1) as nat);
        match inner.result {
            Err(_) => inner,
            Ok(node) => mapping_maybe(
                bytes,
                if inner.cursor.awaited() == Some(RBRACE) {
                    inner.cursor.popped()
                } else {
                    inner.cursor
                },
                node,
                (depth - 1) as nat,
            ),
        }
    } else if cur == LBRACKET {
        let inner = flow_sequence(bytes, c, (depth - 1) as nat);
        match inner.result {
            Err(_) => inner,
            Ok(node) => mapping_maybe(bytes, inner.cursor, node, (depth - 1) as nat),
        }
    } else if cur == DASH {
        match c.peek(bytes) {
            Some(n) => if is_linebreak(n) || is_ws(n) {
                block_sequence(bytes, c, (depth - 1) as nat)
            } else {
                Parsed::failed(c, Failure::UnexpectedDash)
            },
            None => Parsed::failed(c, Failure::UnexpectedDash),
        }
    } else if cur == RBRACE {
        Parsed::failed(c, Failure::UnexpectedBrace)
    } else if cur == RBRACKET {
        Parsed::failed(c, Failure::UnexpectedBracket)
    } else if is_ws(cur) {
        let next = c.indent_chomped(bytes);
        if next.at_end(bytes) {
            Parsed::failed(next, Failure::UnexpectedEnd)
        } else {
            proof {
                ws_end_bounds(bytes, c.idx);
            }
            value(bytes, next, depth)
        }
    } else if cur == BANG {
        tagged(bytes, c, (depth - 1) as nat)
    } else if cur == PIPE {
        block_scalar(bytes, c, false)
    } else if cur == GREATER {
        block_scalar(bytes, c, true)
    } else {
        Parsed::failed(c, Failure::TopLevel)
    }
}

/// How a scalar is read that may be the first key of a block mapping. Inside a flow
/// collection the scalar is all there is.
pub open spec fn maybe_scalar(bytes: Seq<u8>, c: Cursor, depth: nat) -> Parsed
    decreases depth, 5int, bytes.len() - c.idx,
{
    if in_flow(c.context()) {
        scalar(bytes, c)
    } else {
        let read = scalar(bytes, c.started(ParseContextKind::BlockMapping));
        match read.result {
            Err(_) => read,
            Ok(node) => match read.cursor.end_failure(ParseContextKind::BlockMapping) {
                Some(f) => Parsed::failed(read.cursor.ended(), f),
                None => mapping_maybe(bytes, read.cursor.ended(), node, depth),
            },
        }
    }
}

/// What a value that was read becomes: behind blanks and a comment, a colon that no
/// open flow mapping and no pending key claims makes it the first key of a block
/// mapping.
pub open spec fn mapping_maybe(bytes: Seq<u8>, c: Cursor, node: Node, depth: nat) -> Parsed
    decreases depth, 4int, bytes.len() - c.idx,
{
    let at = c.trimmed(bytes);
    if at.current(bytes) == COLON && at.awaited() != Some(RBRACE) && at.awaited() != Some(COLON) {
        mapping_block(bytes, at, node, depth)
    } else {
        Parsed::done(at, node)
    }
}

/// How a block mapping is read whose first key has been read and whose first colon the
/// cursor stands on. The indentation recorded there is that of the mapping.
pub open spec fn mapping_block(bytes: Seq<u8>, c: Cursor, key: Node, depth: nat) -> Parsed
    decreases depth, 3int, bytes.len() - c.idx,
{
    if in_flow(c.context()) {
        Parsed::failed(c, Failure::BlockInFlow)
    } else if c.current(bytes) != COLON {
        Parsed::failed(c, Failure::BlockMappingColon)
    } else if c.idx + 1 >= bytes.len() {
        Parsed::failed(c, Failure::UnexpectedEnd)
    } else {
        let first = value(bytes, c.at(c.idx + 1).trimmed(bytes), depth);
        match first.result {
            Err(_) => first,
            Ok(v) => block_entries(
                bytes,
                first.cursor,
                seq![Pair { key, value: v }],
                c.indent,
                depth,
            ),
        }
    }
}

/// How the further entries of a block mapping indented by `indent` are read: round by
/// round, each of which must move the cursor on.
pub open spec fn block_entries(
    bytes: Seq<u8>,
    c: Cursor,
    entries: Seq<Pair>,
    indent: int,
    depth: nat,
) -> Parsed
    decreases depth, 2int, bytes.len() - c.idx,
{
    match block_entry(bytes, c, entries, indent, depth) {
        Step::Stop(parsed) => parsed,
        Step::More(next, more) => if next.idx <= c.idx || !next.within(bytes) {
            Parsed::failed(next, Failure::UnexpectedEnd)
        } else {
            block_entries(bytes, next, more, indent, depth)
        },
    }
}

/// One round of reading the further entries of a block mapping indented by `indent`.
///
/// A line break, which resets the indentation, blanks at the start of a line, which
/// set it, or a comment is skipped. The mapping ends with the input, or before a line
/// that is indented less. Any other line gives a key, a colon and a value.
pub open spec fn block_entry(
    bytes: Seq<u8>,
    c: Cursor,
    entries: Seq<Pair>,
    indent: int,
    depth: nat,
) -> Step<Pair>
    decreases depth, 1int, bytes.len() - c.idx,
{
    let cur = c.current(bytes);
    if !c.within(bytes) || c.at_end(bytes) {
        Step::Stop(Parsed::done(c, Node::Mapping(entries)))
    } else if is_linebreak(cur) {
        let next = c.indented(0).bumped_newline(bytes);
        if c.newline_bumps(bytes) {
            Step::More(next, entries)
        } else {
            Step::Stop(Parsed::done(next, Node::Mapping(entries)))
        }
    } else if is_ws(cur) {
        Step::More(c.indent_chomped(bytes), entries)
    } else if cur == HASH {
        Step::More(c.at(comment_end(bytes, c.idx)), entries)
    } else if c.indent < indent {
        Step::Stop(Parsed::done(c, Node::Mapping(entries)))
    } else {
        let key = value(bytes, c.expecting(COLON), depth);
        match key.result {
            Err(_) => Step::Stop(key),
            Ok(k) => {
                let colon = key.cursor.trimmed(bytes);
                if colon.current(bytes) != COLON {
                    Step::Stop(Parsed::failed(colon, Failure::BlockMapping))
                } else if colon.awaited() != Some(COLON) {
                    Step::Stop(Parsed::failed(colon, Failure::TokenNotExpected))
                } else if !(0 <= colon.idx && colon.idx + 1 < bytes.len()) {
                    Step::Stop(Parsed::failed(colon.popped(), Failure::UnexpectedEnd))
                } else {
                    let read = value(
                        bytes,
                        colon.popped().at(ws_end(bytes, colon.idx + 1)),
                        depth,
                    );
                    match read.result {
                        Err(_) => Step::Stop(read),
                        Ok(v) => Step::More(read.cursor, entries.push(Pair { key: k, value: v })),
                    }
                }
            },
        }
    }
}

/// How the flow mapping that begins with `{` at the cursor is read.
pub open spec fn flow_mapping(bytes: Seq<u8>, c: Cursor, depth: nat) -> Parsed
    decreases depth, 3int, bytes.len() - c.idx,
{
    if c.current(bytes) != LBRACE {
        Parsed::failed(c, Failure::ExpectedLeftBrace)
    } else if c.idx + 1 >= bytes.len() {
        Parsed::failed(c, Failure::UnexpectedEnd)
    } else {
        flow_entries(bytes, c.at(c.idx + 1), Seq::empty(), depth)
    }
}

/// How the entries of a flow mapping are read up to the `}` that closes it: round by
/// round, each of which must move the cursor on.
pub open spec fn flow_entries(bytes: Seq<u8>, c: Cursor, entries: Seq<Pair>, depth: nat) -> Parsed
    decreases depth, 2int, bytes.len() - c.idx,
{
    match flow_entry(bytes, c, entries, depth) {
        Step::Stop(parsed) => parsed,
        Step::More(next, more) => if next.idx <= c.idx || !next.within(bytes) {
            Parsed::failed(next, Failure::UnexpectedEnd)
        } else {
            flow_entries(bytes, next, more, depth)
        },
    }
}

/// One round of reading the entries of a flow mapping.
///
/// `}` closes the mapping and a comma is passed over. Anything else begins an entry: a
/// key, read with a colon expected, then the colon and a value; blanks and a comment
/// may follow each, and behind the value also line breaks, with further blanks and
/// comments.
pub open spec fn flow_entry(bytes: Seq<u8>, c: Cursor, entries: Seq<Pair>, depth: nat) -> Step<
    Pair,
>
    decreases depth, 1int, bytes.len() - c.idx,
{
    let cur = c.current(bytes);
    if !c.within(bytes) {
        Step::Stop(Parsed::failed(c, Failure::UnexpectedEnd))
    } else if cur == RBRACE {
        Step::Stop(Parsed::done(c.bumped(bytes), Node::Mapping(entries)))
    } else if cur == COMMA {
        if c.idx + 1 >= bytes.len() {
            Step::Stop(Parsed::failed(c, Failure::UnexpectedEnd))
        } else {
            Step::More(c.at(c.idx + 1), entries)
        }
    } else {
        let key = value(
            bytes,
            c.expecting(COLON).started(ParseContextKind::FlowMapping),
            depth,
        );
        match key.result {
            Err(_) => Step::Stop(key),
            Ok(k) => match key.cursor.end_failure(ParseContextKind::FlowMapping) {
                Some(f) => Step::Stop(Parsed::failed(key.cursor.ended(), f)),
                None => {
                    let colon = key.cursor.ended().trimmed(bytes);
                    if colon.current(bytes) != COLON {
                        Step::Stop(Parsed::failed(colon, Failure::FlowMapping))
                    } else if colon.awaited() != Some(COLON) {
                        Step::Stop(Parsed::failed(colon, Failure::TokenNotExpected))
                    } else if !(0 <= colon.idx && colon.idx + 1 < bytes.len()) {
                        Step::Stop(Parsed::failed(colon.popped(), Failure::UnexpectedEnd))
                    } else {
                        let read = value(
                            bytes,
                            colon.popped().at(ws_end(bytes, colon.idx + 1)).started(
                                ParseContextKind::Flow,
                            ),
                            depth,
                        );
                        match read.result {
                            Err(_) => Step::Stop(read),
                            Ok(v) => match read.cursor.end_failure(ParseContextKind::Flow) {
                                Some(f) => Step::Stop(Parsed::failed(read.cursor.ended(), f)),
                                None => {
                                    let trimmed = read.cursor.ended().trimmed(bytes);
                                    Step::More(
                                        trimmed.at(gap_end(bytes, trimmed.idx)),
                                        entries.push(Pair { key: k, value: v }),
                                    )
                                },
                            },
                        }
                    }
                },
            },
        }
    }
}

/// How the flow sequence that begins with `[` at the cursor is read.
pub open spec fn flow_sequence(bytes: Seq<u8>, c: Cursor, depth: nat) -> Parsed
    decreases depth, 3int, bytes.len() - c.idx,
{
    let open = c.started(ParseContextKind::Flow);
    if c.current(bytes) != LBRACKET {
        Parsed::failed(open, Failure::FlowSequence)
    } else if c.idx + 1 >= bytes.len() {
        Parsed::failed(open, Failure::UnexpectedEnd)
    } else {
        flow_items(bytes, open.at(c.idx + 1), Seq::empty(), depth)
    }
}

/// How the items of a flow sequence are read up to the `]` that closes it: round by
/// round, each of which must move the cursor on.
pub open spec fn flow_items(bytes: Seq<u8>, c: Cursor, items: Seq<Node>, depth: nat) -> Parsed
    decreases depth, 2int, bytes.len() - c.idx,
{
    match flow_item(bytes, c, items, depth) {
        Step::Stop(parsed) => parsed,
        Step::More(next, more) => if next.idx <= c.idx || !next.within(bytes) {
            Parsed::failed(next, Failure::UnexpectedEnd)
        } else {
            flow_items(bytes, next, more, depth)
        },
    }
}

/// One round of reading the items of a flow sequence.
///
/// `]` closes the sequence. Blanks, a comment or line breaks are skipped. Anything
/// else begins an item, behind which, after blanks, comes a comma, a comment, a line
/// break or the closing bracket.
pub open spec fn flow_item(bytes: Seq<u8>, c: Cursor, items: Seq<Node>, depth: nat) -> Step<Node>
    decreases depth, 1int, bytes.len() - c.idx,
{
    let cur = c.current(bytes);
    if !c.within(bytes) {
        Step::Stop(Parsed::failed(c, Failure::UnexpectedEnd))
    } else if cur == RBRACKET {
        Step::Stop(c.bumped(bytes).closed(ParseContextKind::Flow, Node::Sequence(items)))
    } else if is_ws(cur) {
        Step::More(c.at(ws_end(bytes, c.idx)), items)
    } else if cur == HASH {
        Step::More(c.at(comment_end(bytes, c.idx)), items)
    } else if is_linebreak(cur) {
        let next = c.at(newlines_end(bytes, c.idx));
        if is_linebreak(next.current(bytes)) {
            Step::Stop(Parsed::failed(next, Failure::UnexpectedEnd))
        } else {
            Step::More(next, items)
        }
    } else {
        let read = value(bytes, c, depth);
        match read.result {
            Err(_) => Step::Stop(read),
            Ok(item) => {
                let at = read.cursor.at(ws_end(bytes, read.cursor.idx));
                let sep = at.current(bytes);
                if sep == RBRACKET {
                    Step::Stop(
                        at.bumped(bytes).closed(
                            ParseContextKind::Flow,
                            Node::Sequence(items.push(item)),
                        ),
                    )
                } else if sep == COMMA {
                    if 0 <= at.idx && at.idx + 1 < bytes.len() {
                        Step::More(at.at(at.idx + 1), items.push(item))
                    } else {
                        Step::Stop(Parsed::failed(at, Failure::UnexpectedEnd))
                    }
                } else if sep == HASH {
                    Step::More(at.at(comment_end(bytes, at.idx)), items.push(item))
                } else if is_linebreak(sep) {
                    Step::More(at, items.push(item))
                } else {
                    Step::Stop(Parsed::failed(at, Failure::FlowSequence))
                }
            },
        }
    }
}

/// How the block sequence that begins with `-` at the cursor is read. The indentation
/// recorded there is that of the sequence.
pub open spec fn block_sequence(bytes: Seq<u8>, c: Cursor, depth: nat) -> Parsed
    decreases depth, 3int, bytes.len() - c.idx,
{
    if in_flow(c.context()) {
        Parsed::failed(c, Failure::BlockInFlow)
    } else if c.current(bytes) != DASH {
        Parsed::failed(c.started(ParseContextKind::Block), Failure::BlockSequence)
    } else {
        block_items(bytes, c.started(ParseContextKind::Block), Seq::empty(), c.indent, depth)
    }
}

/// How the items of a block sequence indented by `indent` are read: round by round,
/// each of which must move the cursor on.
pub open spec fn block_items(
    bytes: Seq<u8>,
    c: Cursor,
    items: Seq<Node>,
    indent: int,
    depth: nat,
) -> Parsed
    decreases depth, 2int, bytes.len() - c.idx,
{
    match block_item(bytes, c, items, indent, depth) {
        Step::Stop(parsed) => parsed,
        Step::More(next, more) => if next.idx <= c.idx || !next.within(bytes) {
            Parsed::failed(next, Failure::UnexpectedEnd)
        } else {
            block_items(bytes, next, more, indent, depth)
        },
    }
}

/// One round of reading the items of a block sequence indented by `indent`.
///
/// A comment, a line break, which resets the indentation, or blanks at the start of a
/// line, which set it, are skipped. The sequence ends with the input, or before a line
/// that is indented less, or before one at its own indentation that begins no item. An
/// item begins with `-` and a blank, behind which its value stands two columns further
/// in, or with `-` and a line break, behind which its value stands on the next line,
/// provided that line is indented as far as the sequence.
pub open spec fn block_item(
    bytes: Seq<u8>,
    c: Cursor,
    items: Seq<Node>,
    indent: int,
    depth: nat,
) -> Step<Node>
    decreases depth, 1int, bytes.len() - c.idx,
{
    let cur = c.current(bytes);
    let done = Node::Sequence(items);
    if !c.within(bytes) || c.at_end(bytes) {
        Step::Stop(c.closed(ParseContextKind::Block, done))
    } else if cur == HASH {
        Step::More(c.at(comment_end(bytes, c.idx)), items)
    } else if is_linebreak(cur) {
        let next = c.indented(0).bumped_newline(bytes);
        if c.newline_bumps(bytes) {
            Step::More(next, items)
        } else {
            Step::Stop(next.closed(ParseContextKind::Block, done))
        }
    } else if is_ws(cur) {
        Step::More(c.indent_chomped(bytes), items)
    } else if c.indent < indent {
        Step::Stop(c.closed(ParseContextKind::Block, done))
    } else if cur == DASH {
        let after = bytes[c.idx + 1];
        if !(is_linebreak(after) || is_ws(after)) {
            Step::Stop(Parsed::failed(c, Failure::UnexpectedDash))
        } else if c.idx + 2 >= bytes.len() {
            Step::Stop(Parsed::failed(c.at(c.idx + 1), Failure::UnexpectedEnd))
        } else {
            let below = c.at(c.idx + 2).indented(0);
            let start = if is_ws(after) {
                c.at(c.idx + 2).indented(c.indent + 2)
            } else if is_ws(below.current(bytes)) {
                below.indent_chomped(bytes)
            } else {
                below
            };
            if is_linebreak(after) && start.indent < indent {
                Step::Stop(start.closed(ParseContextKind::Block, done))
            } else {
                let read = value(bytes, start, depth);
                match read.result {
                    Err(_) => Step::Stop(read),
                    Ok(item) => Step::More(read.cursor, items.push(item)),
                }
            }
        }
    } else if c.indent == indent {
        Step::Stop(c.closed(ParseContextKind::Block, done))
    } else {
        Step::Stop(Parsed::failed(c, Failure::ExpectedSequenceItem))
    }
}

/// How the tagged value that begins with `!` at the cursor is read: the tag, then the
/// value under it, which must follow.
pub open spec fn tagged(bytes: Seq<u8>, c: Cursor, depth: nat) -> Parsed
    decreases depth, 3int, bytes.len() - c.idx,
{
    let name = tag(bytes, c);
    match name.1 {
        Err(f) => Parsed::failed(name.0, f),
        Ok(text) => if ends_input(bytes, c, text) {
            Parsed::failed(name.0, Failure::UnexpectedEnd)
        } else {
            let read = value(bytes, name.0, depth);
            match read.result {
                Err(_) => read,
                Ok(node) => Parsed::done(read.cursor, tag_wrapped(text, node)),
            }
        },
    }
}

/// The entries of a block mapping stand in the order in which they were read: what is
/// read further is added behind the entries read so far, which all stay as they are.
pub proof fn block_entries_keep_order(
    bytes: Seq<u8>,
    c: Cursor,
    entries: Seq<Pair>,
    indent: int,
    depth: nat,
)
    ensures
        block_entries(bytes, c, entries, indent, depth).result matches Ok(node) ==> node
            matches Node::Mapping(all) && entries.is_prefix_of(all),
    decreases bytes.len() - c.idx,
{
    match block_entry(bytes, c, entries, indent, depth) {
        Step::Stop(parsed) => {
            assert(entries.is_prefix_of(entries));
        },
        Step::More(next, more) => {
            assert(entries.is_prefix_of(more));
            if !(next.idx <= c.idx || !next.within(bytes)) {
                block_entries_keep_order(bytes, next, more, indent, depth);
            }
        },
    }
}

/// The entries of a flow mapping stand in the order in which they were read: what is
/// read further is added behind the entries read so far, which all stay as they are.
pub proof fn flow_entries_keep_order(bytes: Seq<u8>, c: Cursor, entries: Seq<Pair>, depth: nat)
    ensures
        flow_entries(bytes, c, entries, depth).result matches Ok(node) ==> node matches Node::Mapping(
            all,
        ) && entries.is_prefix_of(all),
    decreases bytes.len() - c.idx,
{
    match flow_entry(bytes, c, entries, depth) {
        Step::Stop(parsed) => {
            assert(entries.is_prefix_of(entries));
        },
        Step::More(next, more) => {
            assert(entries.is_prefix_of(more));
            if !(next.idx <= c.idx || !next.within(bytes)) {
                flow_entries_keep_order(bytes, next, more, depth);
            }
        },
    }
}

/// Where in the input the keys stand of the entries that reading the further entries
/// of a block mapping adds: for each round that reads an entry, the offset at which
/// the round began, which is where the key of the entry begins.
pub open spec fn block_key_places(
    bytes: Seq<u8>,
    c: Cursor,
    entries: Seq<Pair>,
    indent: int,
    depth: nat,
) -> Seq<int>
    decreases bytes.len() - c.idx,
{
    match block_entry(bytes, c, entries, indent, depth) {
        Step::Stop(_) => Seq::empty(),
        Step::More(next, more) => if next.idx <= c.idx || !next.within(bytes) {
            Seq::empty()
        } else {
            let rest = block_key_places(bytes, next, more, indent, depth);
            if more.len() > entries.len() {
                seq![c.idx] + rest
            } else {
                rest
            }
        },
    }
}

/// Where in the input the keys stand of the entries that reading the entries of a
/// flow mapping adds: for each round that reads an entry, the offset at which the
/// round began.
pub open spec fn flow_key_places(bytes: Seq<u8>, c: Cursor, entries: Seq<Pair>, depth: nat) -> Seq<
    int,
>
    decreases bytes.len() - c.idx,
{
    match flow_entry(bytes, c, entries, depth) {
        Step::Stop(_) => Seq::empty(),
        Step::More(next, more) => if next.idx <= c.idx || !next.within(bytes) {
            Seq::empty()
        } else {
            let rest = flow_key_places(bytes, next, more, depth);
            if more.len() > entries.len() {
                seq![c.idx] + rest
            } else {
                rest
            }
        },
    }
}

/// The places `places` lie at or behind offset `from` in an input of `len` bytes, each
/// behind the one before it.
pub open spec fn ascending(places: Seq<int>, from: int, len: int) -> bool {
    &&& forall|i: int| 0 <= i < places.len() ==> from <= #[trigger] places[i] < len
    &&& forall|i: int, j: int| 0 <= i < j < places.len() ==> places[i] < places[j]
}

/// A block mapping holds one entry for each key that stands in the input, in the
/// order in which the keys stand there: reading its further entries adds as many
/// entries as there are places of keys, and the places lie one behind the other.
pub proof fn block_entries_follow_keys(
    bytes: Seq<u8>,
    c: Cursor,
    entries: Seq<Pair>,
    indent: int,
    depth: nat,
)
    ensures
        ascending(block_key_places(bytes, c, entries, indent, depth), c.idx, bytes.len() as int),
        block_entries(bytes, c, entries, indent, depth).result matches Ok(node) ==> node
            matches Node::Mapping(all) && all.len() == entries.len() + block_key_places(
            bytes,
            c,
            entries,
            indent,
            depth,
        ).len(),
    decreases bytes.len() - c.idx,
{
    match block_entry(bytes, c, entries, indent, depth) {
        Step::Stop(parsed) => {},
        Step::More(next, more) => {
            if !(next.idx <= c.idx || !next.within(bytes)) {
                block_entries_follow_keys(bytes, next, more, indent, depth);
                let rest = block_key_places(bytes, next, more, indent, depth);
                let places = block_key_places(bytes, c, entries, indent, depth);
                assert(more.len() == entries.len() || more.len() == entries.len() + 1);
                if more.len() > entries.len() {
                    assert(places == seq![c.idx] + rest);
                    assert forall|i: int, j: int| 0 <= i < j < places.len() implies places[i]
                        < places[j] by {
                        assert(places[j] == rest[j - 1]);
                        if i > 0 {
                            assert(places[i] == rest[i - 1]);
                        }
                    }
                    assert forall|i: int| 0 <= i < places.len() implies c.idx
                        <= #[trigger] places[i] < bytes.len() by {
                        if i > 0 {
                            assert(places[i] == rest[i - 1]);
                        }
                    }
                }
            }
        },
    }
}

/// A flow mapping holds one entry for each key that stands in the input, in the order
/// in which the keys stand there: reading its entries adds as many entries as there
/// are places of keys, and the places lie one behind the other.
pub proof fn flow_entries_follow_keys(bytes: Seq<u8>, c: Cursor, entries: Seq<Pair>, depth: nat)
    ensures
        ascending(flow_key_places(bytes, c, entries, depth), c.idx, bytes.len() as int),
        flow_entries(bytes, c, entries, depth).result matches Ok(node) ==> node matches Node::Mapping(
            all,
        ) && all.len() == entries.len() + flow_key_places(bytes, c, entries, depth).len(),
    decreases bytes.len() - c.idx,
{
    match flow_entry(bytes, c, entries, depth) {
        Step::Stop(parsed) => {},
        Step::More(next, more) => {
            if !(next.idx <= c.idx || !next.within(bytes)) {
                flow_entries_follow_keys(bytes, next, more, depth);
                let rest = flow_key_places(bytes, next, more, depth);
                let places = flow_key_places(bytes, c, entries, depth);
                assert(more.len() == entries.len() || more.len() == entries.len() + 1);
                if more.len() > entries.len() {
                    assert(places == seq![c.idx] + rest);
                    assert forall|i: int, j: int| 0 <= i < j < places.len() implies places[i]
                        < places[j] by {
                        assert(places[j] == rest[j - 1]);
                        if i > 0 {
                            assert(places[i] == rest[i - 1]);
                        }
                    }
                    assert forall|i: int| 0 <= i < places.len() implies c.idx
                        <= #[trigger] places[i] < bytes.len() by {
                        if i > 0 {
                            assert(places[i] == rest[i - 1]);
                        }
                    }
                }
            }
        },
    }
}

/// A block mapping begins with the key that was read before its first colon.
pub proof fn mapping_block_begins_with_key(bytes: Seq<u8>, c: Cursor, key: Node, depth: nat)
    ensures
        mapping_block(bytes, c, key, depth).result matches Ok(node) ==> node matches Node::Mapping(
            all,
        ) && all.len() > 0 && all[0].key == key,
{
    if !in_flow(c.context()) && c.current(bytes) == COLON && c.idx + 1 < bytes.len() {
        let first = value(bytes, c.at(c.idx + 1).trimmed(bytes), depth);
        if let Ok(v) = first.result {
            let begun = seq![Pair { key, value: v }];
            block_entries_keep_order(bytes, first.cursor, begun, c.indent, depth);
            if let Ok(Node::Mapping(all)) = block_entries(
                bytes,
                first.cursor,
                begun,
                c.indent,
                depth,
            ).result {
                assert(all[0] == begun[0]);
            }
        }
    }
}

} // verus!
