//! The readers of values and collections, each proved to read what `grammar` states.
use crate::bytes::{
    byte_is_dash, byte_is_linebreak, byte_is_scalar_start, byte_is_ws, BANG, COLON, COMMA, DASH, GREATER, HASH,
    LBRACE, LBRACKET, PIPE, RBRACE, RBRACKET,
};
use crate::context::{context_in_flow, ParseContextKind};
use crate::cursor::{
    comment_end_bounds, line_end_bounds, newlines_end_bounds, ws_end_bounds, Parser,
};
use crate::errors::{Failure, YamlParseError};
use crate::grammar::{
    block_entries, block_entry, block_item, block_items, block_sequence, flow_entries,
    flow_entry, flow_item, flow_items, flow_mapping, flow_sequence, gap_end, mapping_block,
    mapping_maybe, maybe_scalar, tagged, value, Step,
};
use crate::tag::wrap_tagged;
use crate::value::{
    entries_view, items_view, mapping_of, push_entry, push_item, sequence_of, Entry, Node, Pair,
    Yaml,
};
use vstd::prelude::*;
use vstd::string::*;

verus! {

/// How one round of reading a collection ends, where it did not fail.
pub enum Progress<'a, T> {
    /// The collection is read.
    Stop(Yaml<'a>),
    /// There is more to read; this is what has been read.
    More(Vec<T>),
}

impl<'a> Parser<'a> {
    /// `next` and `r` are what `step` describes, for a round of reading entries.
    pub open spec fn entry_round(
        &self,
        next: &Parser<'a>,
        r: Result<Progress<'a, Entry<'a>>, YamlParseError>,
        step: Step<Pair>,
    ) -> bool {
        match step {
            Step::Stop(parsed) => {
                &&& self.steps_to(next, parsed.cursor)
                &&& match r {
                    Ok(Progress::Stop(y)) => parsed.result == Ok::<Node, Failure>(y@),
                    Ok(Progress::More(_)) => false,
                    Err(e) => parsed.result matches Err(f) && e.reports(
                        self.input(),
                        parsed.cursor.idx,
                        f,
                    ),
                }
            },
            Step::More(cursor, more) => {
                &&& self.steps_to(next, cursor)
                &&& r matches Ok(Progress::More(v)) && entries_view(v@) == more
            },
        }
    }

    /// `next` and `r` are what `step` describes, for a round of reading items.
    pub open spec fn item_round(
        &self,
        next: &Parser<'a>,
        r: Result<Progress<'a, Yaml<'a>>, YamlParseError>,
        step: Step<Node>,
    ) -> bool {
        match step {
            Step::Stop(parsed) => {
                &&& self.steps_to(next, parsed.cursor)
                &&& match r {
                    Ok(Progress::Stop(y)) => parsed.result == Ok::<Node, Failure>(y@),
                    Ok(Progress::More(_)) => false,
                    Err(e) => parsed.result matches Err(f) && e.reports(
                        self.input(),
                        parsed.cursor.idx,
                        f,
                    ),
                }
            },
            Step::More(cursor, more) => {
                &&& self.steps_to(next, cursor)
                &&& r matches Ok(Progress::More(v)) && items_view(v@) == more
            },
        }
    }

    /// Skips blanks and a comment.
    pub fn chomp_trailing(&mut self)
        requires
            old(self).wf(),
        ensures
            old(self).steps_to(final(self), old(self)@.trimmed(old(self).input())),
    {
        proof {
            ws_end_bounds(self.input(), self@.idx);
        }
        self.chomp_whitespace();
        self.chomp_comment();
    }

    /// Skips blanks, line breaks and comments up to the first byte that is none of
    /// them, or to the last byte of the input.
    pub fn chomp_gap(&mut self)
        requires
            old(self).wf(),
        ensures
            old(self).steps_to(
                final(self),
                old(self)@.at(gap_end(old(self).input(), old(self)@.idx)),
            ),
    {
        while self.idx + 1 < self.bytes.len() && (byte_is_ws(self.current) || byte_is_linebreak(
            self.current,
        ) || self.current == HASH)
            invariant
                old(self).steps_to(self, old(self)@.at(self.idx as int)),
                gap_end(self.input(), self.idx as int) == gap_end(
                    old(self).input(),
                    old(self)@.idx,
                ),
            decreases self.input().len() - self.idx,
        {
            if self.current == HASH {
                proof {
                    line_end_bounds(self.input(), self.idx + 1);
                }
                self.bump();
                self.skip_line();
            } else {
                self.bump();
            }
        }
    }

    /// Reads the whole input as one value, with the parser's limit on nesting.
    pub fn parse(&mut self) -> (r: Result<Yaml<'a>, YamlParseError>)
        requires
            old(self).wf(),
        ensures
            old(self).yields(
                final(self),
                r,
                value(old(self).input(), old(self)@, old(self).max_depth as nat),
            ),
    {
        self.parse_nested(self.max_depth)
    }

    /// Reads the value that begins at the current byte, with `depth` levels of nesting
    /// left.
    pub fn parse_nested(&mut self, depth: usize) -> (r: Result<Yaml<'a>, YamlParseError>)
        requires
            old(self).wf(),
        ensures
            old(self).yields(final(self), r, value(old(self).input(), old(self)@, depth as nat)),
        decreases depth, 0int, old(self).input().len() - old(self).idx,
    {
        if depth == 0 {
            return self.fail(Failure::TooDeep);
        }
        loop
            invariant
                depth > 0,
                old(self).steps_to(self, self@),
                value(self.input(), self@, depth as nat) == value(
                    old(self).input(),
                    old(self)@,
                    depth as nat,
                ),
            decreases self.input().len() - self.idx,
        {
            let cur: u8 = self.current;
            let before: usize = self.idx;
            if cur == HASH {
                proof {
                    comment_end_bounds(self.input(), self@.idx);
                }
                self.chomp_comment();
                if self.idx <= before {
                    return self.fail(Failure::UnexpectedEnd);
                }
            } else if cur == DASH && self.check_ahead_1(byte_is_dash) && self.check_ahead_n(
                2,
                byte_is_dash,
            ) {
                self.bump();
                self.bump();
                self.bump();
            } else if byte_is_linebreak(cur) {
                proof {
                    newlines_end_bounds(self.input(), self@.idx);
                }
                self.chomp_newlines()?;
                self.indent = 0;
            } else if byte_is_scalar_start(cur, self.peek(), self.context()) {
                return self.parse_maybe_scalar(depth - 1);
            } else if cur == LBRACE {
                self.expected.push(RBRACE);
                let res = self.parse_mapping_flow(depth - 1)?;
                let n: usize = self.expected.len();
                if n > 0 && self.expected[n - 1] == RBRACE {
                    self.expected.pop();
                }
                return self.parse_mapping_maybe(res, depth - 1);
            } else if cur == LBRACKET {
                let node = self.parse_sequence_flow(depth - 1)?;
                return self.parse_mapping_maybe(node, depth - 1);
            } else if cur == DASH {
                return match self.peek() {
                    Some(n) => if byte_is_linebreak(n) || byte_is_ws(n) {
                        self.parse_sequence_block(depth - 1)
                    } else {
                        self.fail(Failure::UnexpectedDash)
                    },
                    None => self.fail(Failure::UnexpectedDash),
                };
            } else if cur == RBRACE {
                return self.fail(Failure::UnexpectedBrace);
            } else if cur == RBRACKET {
                return self.fail(Failure::UnexpectedBracket);
            } else if byte_is_ws(cur) {
                proof {
                    ws_end_bounds(self.input(), self@.idx);
                }
                self.chomp_indent();
                if self.at_end() {
                    return self.fail(Failure::UnexpectedEnd);
                }
            } else if cur == BANG {
                return self.parse_tagged_value(depth - 1);
            } else if cur == PIPE {
                return self.parse_literal_block_scalar();
            } else if cur == GREATER {
                return self.parse_folded_block_scalar();
            } else {
                return self.fail(Failure::TopLevel);
            }
        }
    }

    /// Reads a scalar and, outside flow collections, the block mapping that it may be
    /// the first key of.
    pub fn parse_maybe_scalar(&mut self, depth: usize) -> (r: Result<Yaml<'a>, YamlParseError>)
        requires
            old(self).wf(),
        ensures
            old(self).yields(
                final(self),
                r,
                maybe_scalar(old(self).input(), old(self)@, depth as nat),
            ),
        decreases depth, 5int, old(self).input().len() - old(self).idx,
    {
        if context_in_flow(self.context()) {
            self.parse_scalar()
        } else {
            self.start_context(ParseContextKind::BlockMapping)?;
            let node = self.parse_scalar()?;
            self.end_context(ParseContextKind::BlockMapping)?;
            self.parse_mapping_maybe(node, depth)
        }
    }

    /// Skips blanks and a comment behind `node`, and reads the block mapping that
    /// `node` is the first key of where a colon follows that nothing else claims.
    pub fn parse_mapping_maybe(&mut self, node: Yaml<'a>, depth: usize) -> (r: Result<
        Yaml<'a>,
        YamlParseError,
    >)
        requires
            old(self).wf(),
        ensures
            old(self).yields(
                final(self),
                r,
                mapping_maybe(old(self).input(), old(self)@, node@, depth as nat),
            ),
        decreases depth, 4int, old(self).input().len() - old(self).idx,
    {
        self.chomp_trailing();
        let n: usize = self.expected.len();
        let claimed: bool = n > 0 && (self.expected[n - 1] == RBRACE || self.expected[n - 1]
            == COLON);
        if self.current == COLON && !claimed {
            self.parse_mapping_block(node, depth)
        } else {
            Ok(node)
        }
    }

    /// Reads the block mapping whose first key is `start_key` and whose first colon is
    /// the current byte.
    pub fn parse_mapping_block(&mut self, start_key: Yaml<'a>, depth: usize) -> (r: Result<
        Yaml<'a>,
        YamlParseError,
    >)
        requires
            old(self).wf(),
        ensures
            old(self).yields(
                final(self),
                r,
                mapping_block(old(self).input(), old(self)@, start_key@, depth as nat),
            ),
        decreases depth, 3int, old(self).input().len() - old(self).idx,
    {
        if context_in_flow(self.context()) {
            return self.fail(Failure::BlockInFlow);
        }
        let indent: usize = self.indent;
        if self.current != COLON {
            return self.fail(Failure::BlockMappingColon);
        }
        self.advance()?;
        self.chomp_trailing();
        let first = self.parse_nested(depth)?;
        let mut entries: Vec<Entry<'a>> = Vec::new();
        assert(entries_view(entries@) =~= Seq::<Pair>::empty());
        push_entry(&mut entries, start_key, first);
        assert(entries_view(entries@) =~= seq![Pair { key: start_key@, value: first@ }]);
        let ghost goal = block_entries(
            self.input(),
            self@,
            entries_view(entries@),
            indent as int,
            depth as nat,
        );
        loop
            invariant
                old(self).steps_to(self, self@),
                block_entries(
                    self.input(),
                    self@,
                    entries_view(entries@),
                    indent as int,
                    depth as nat,
                ) == goal,
                mapping_block(old(self).input(), old(self)@, start_key@, depth as nat) == goal,
            decreases self.input().len() - self.idx,
        {
            let before: usize = self.idx;
            match self.parse_block_entry(entries, indent, depth) {
                Err(e) => {
                    return Err(e);
                },
                Ok(Progress::Stop(node)) => {
                    return Ok(node);
                },
                Ok(Progress::More(more)) => {
                    if self.idx <= before {
                        return self.fail(Failure::UnexpectedEnd);
                    }
                    entries = more;
                },
            }
        }
    }

    /// One round of reading the further entries of a block mapping: skips a line
    /// break, leading blanks or a comment, or ends the mapping, or reads an entry.
    pub fn parse_block_entry(
        &mut self,
        entries: Vec<Entry<'a>>,
        indent: usize,
        depth: usize,
    ) -> (r: Result<Progress<'a, Entry<'a>>, YamlParseError>)
        requires
            old(self).wf(),
        ensures
            old(self).entry_round(
                final(self),
                r,
                block_entry(
                    old(self).input(),
                    old(self)@,
                    entries_view(entries@),
                    indent as int,
                    depth as nat,
                ),
            ),
        decreases depth, 1int, old(self).input().len() - old(self).idx,
    {
        let cur: u8 = self.current;
        let mut entries = entries;
        if self.at_end() {
            Ok(Progress::Stop(mapping_of(entries)))
        } else if byte_is_linebreak(cur) {
            self.indent = 0;
            if self.bump_newline() {
                Ok(Progress::More(entries))
            } else {
                Ok(Progress::Stop(mapping_of(entries)))
            }
        } else if byte_is_ws(cur) {
            self.chomp_indent();
            Ok(Progress::More(entries))
        } else if cur == HASH {
            self.chomp_comment();
            Ok(Progress::More(entries))
        } else if self.indent < indent {
            Ok(Progress::Stop(mapping_of(entries)))
        } else {
            self.expected.push(COLON);
            let key = self.parse_nested(depth)?;
            self.chomp_trailing();
            if self.current != COLON {
                return self.fail(Failure::BlockMapping);
            }
            self.pop_if_match(COLON)?;
            self.advance()?;
            self.chomp_whitespace();
            let value = self.parse_nested(depth)?;
            push_entry(&mut entries, key, value);
            Ok(Progress::More(entries))
        }
    }

    /// Reads the flow mapping that begins with `{` at the current byte.
    pub fn parse_mapping_flow(&mut self, depth: usize) -> (r: Result<Yaml<'a>, YamlParseError>)
        requires
            old(self).wf(),
        ensures
            old(self).yields(
                final(self),
                r,
                flow_mapping(old(self).input(), old(self)@, depth as nat),
            ),
        decreases depth, 3int, old(self).input().len() - old(self).idx,
    {
        if self.current != LBRACE {
            return self.fail(Failure::ExpectedLeftBrace);
        }
        self.advance()?;
        let mut entries: Vec<Entry<'a>> = Vec::new();
        assert(entries_view(entries@) =~= Seq::<Pair>::empty());
        let ghost goal = flow_entries(self.input(), self@, entries_view(entries@), depth as nat);
        loop
            invariant
                old(self).steps_to(self, self@),
                flow_entries(self.input(), self@, entries_view(entries@), depth as nat) == goal,
                flow_mapping(old(self).input(), old(self)@, depth as nat) == goal,
            decreases self.input().len() - self.idx,
        {
            let before: usize = self.idx;
            match self.parse_flow_entry(entries, depth) {
                Err(e) => {
                    return Err(e);
                },
                Ok(Progress::Stop(node)) => {
                    return Ok(node);
                },
                Ok(Progress::More(more)) => {
                    if self.idx <= before {
                        return self.fail(Failure::UnexpectedEnd);
                    }
                    entries = more;
                },
            }
        }
    }

    /// One round of reading the entries of a flow mapping: closes the mapping, passes
    /// over a comma, or reads an entry.
    pub fn parse_flow_entry(&mut self, entries: Vec<Entry<'a>>, depth: usize) -> (r: Result<
        Progress<'a, Entry<'a>>,
        YamlParseError,
    >)
        requires
            old(self).wf(),
        ensures
            old(self).entry_round(
                final(self),
                r,
                flow_entry(old(self).input(), old(self)@, entries_view(entries@), depth as nat),
            ),
        decreases depth, 1int, old(self).input().len() - old(self).idx,
    {
        let cur: u8 = self.current;
        let mut entries = entries;
        if cur == RBRACE {
            self.bump();
            Ok(Progress::Stop(mapping_of(entries)))
        } else if cur == COMMA {
            self.advance()?;
            Ok(Progress::More(entries))
        } else {
            self.expected.push(COLON);
            self.start_context(ParseContextKind::FlowMapping)?;
            let key = self.parse_nested(depth)?;
            self.end_context(ParseContextKind::FlowMapping)?;
            self.chomp_trailing();
            if self.current != COLON {
                return self.fail(Failure::FlowMapping);
            }
            self.pop_if_match(COLON)?;
            self.advance()?;
            self.chomp_whitespace();
            self.start_context(ParseContextKind::Flow)?;
            let value = self.parse_nested(depth)?;
            self.end_context(ParseContextKind::Flow)?;
            self.chomp_trailing();
            self.chomp_gap();
            push_entry(&mut entries, key, value);
            Ok(Progress::More(entries))
        }
    }

    /// Closes a flow sequence at its `]`, which is the current byte.
    fn close_sequence_flow(&mut self, elements: Vec<Yaml<'a>>) -> (r: Result<
        Progress<'a, Yaml<'a>>,
        YamlParseError,
    >)
        requires
            old(self).wf(),
        ensures
            old(self).item_round(
                final(self),
                r,
                Step::Stop(
                    old(self)@.bumped(old(self).input()).closed(
                        ParseContextKind::Flow,
                        Node::Sequence(items_view(elements@)),
                    ),
                ),
            ),
    {
        self.bump();
        self.end_context(ParseContextKind::Flow)?;
        Ok(Progress::Stop(sequence_of(elements)))
    }

    /// Reads the flow sequence that begins with `[` at the current byte.
    pub fn parse_sequence_flow(&mut self, depth: usize) -> (r: Result<Yaml<'a>, YamlParseError>)
        requires
            old(self).wf(),
        ensures
            old(self).yields(
                final(self),
                r,
                flow_sequence(old(self).input(), old(self)@, depth as nat),
            ),
        decreases depth, 3int, old(self).input().len() - old(self).idx,
    {
        self.start_context(ParseContextKind::Flow)?;
        if self.current != LBRACKET {
            return self.fail(Failure::FlowSequence);
        }
        self.advance()?;
        let mut elements: Vec<Yaml<'a>> = Vec::new();
        assert(items_view(elements@) =~= Seq::<Node>::empty());
        let ghost goal = flow_items(self.input(), self@, items_view(elements@), depth as nat);
        loop
            invariant
                old(self).steps_to(self, self@),
                flow_items(self.input(), self@, items_view(elements@), depth as nat) == goal,
                flow_sequence(old(self).input(), old(self)@, depth as nat) == goal,
            decreases self.input().len() - self.idx,
        {
            let before: usize = self.idx;
            match self.parse_flow_item(elements, depth) {
                Err(e) => {
                    return Err(e);
                },
                Ok(Progress::Stop(node)) => {
                    return Ok(node);
                },
                Ok(Progress::More(more)) => {
                    if self.idx <= before {
                        return self.fail(Failure::UnexpectedEnd);
                    }
                    elements = more;
                },
            }
        }
    }

    /// One round of reading the items of a flow sequence: closes the sequence, skips
    /// blanks, a comment or line breaks, or reads an item and what parts it from the
    /// next.
    pub fn parse_flow_item(&mut self, elements: Vec<Yaml<'a>>, depth: usize) -> (r: Result<
        Progress<'a, Yaml<'a>>,
        YamlParseError,
    >)
        requires
            old(self).wf(),
        ensures
            old(self).item_round(
                final(self),
                r,
                flow_item(old(self).input(), old(self)@, items_view(elements@), depth as nat),
            ),
        decreases depth, 1int, old(self).input().len() - old(self).idx,
    {
        let cur: u8 = self.current;
        let mut elements = elements;
        if cur == RBRACKET {
            self.close_sequence_flow(elements)
        } else if byte_is_ws(cur) {
            self.chomp_whitespace();
            Ok(Progress::More(elements))
        } else if cur == HASH {
            self.chomp_comment();
            Ok(Progress::More(elements))
        } else if byte_is_linebreak(cur) {
            self.chomp_newlines()?;
            Ok(Progress::More(elements))
        } else {
            let elem = self.parse_nested(depth)?;
            push_item(&mut elements, elem);
            self.chomp_whitespace();
            let sep: u8 = self.current;
            if sep == RBRACKET {
                self.close_sequence_flow(elements)
            } else if sep == COMMA {
                self.advance()?;
                Ok(Progress::More(elements))
            } else if sep == HASH {
                self.chomp_comment();
                Ok(Progress::More(elements))
            } else if byte_is_linebreak(sep) {
                Ok(Progress::More(elements))
            } else {
                self.fail(Failure::FlowSequence)
            }
        }
    }

    /// Closes a block sequence.
    fn close_sequence_block(&mut self, seq: Vec<Yaml<'a>>) -> (r: Result<
        Progress<'a, Yaml<'a>>,
        YamlParseError,
    >)
        requires
            old(self).wf(),
        ensures
            old(self).item_round(
                final(self),
                r,
                Step::Stop(
                    old(self)@.closed(ParseContextKind::Block, Node::Sequence(items_view(seq@))),
                ),
            ),
    {
        self.end_context(ParseContextKind::Block)?;
        Ok(Progress::Stop(sequence_of(seq)))
    }

    /// Reads the block sequence that begins with `-` at the current byte.
    pub fn parse_sequence_block(&mut self, depth: usize) -> (r: Result<Yaml<'a>, YamlParseError>)
        requires
            old(self).wf(),
        ensures
            old(self).yields(
                final(self),
                r,
                block_sequence(old(self).input(), old(self)@, depth as nat),
            ),
        decreases depth, 3int, old(self).input().len() - old(self).idx,
    {
        if context_in_flow(self.context()) {
            return self.fail(Failure::BlockInFlow);
        }
        self.start_context(ParseContextKind::Block)?;
        let indent: usize = self.indent;
        if self.current != DASH {
            return self.fail(Failure::BlockSequence);
        }
        let mut seq: Vec<Yaml<'a>> = Vec::new();
        assert(items_view(seq@) =~= Seq::<Node>::empty());
        let ghost goal = block_items(
            self.input(),
            self@,
            items_view(seq@),
            indent as int,
            depth as nat,
        );
        loop
            invariant
                old(self).steps_to(self, self@),
                block_items(self.input(), self@, items_view(seq@), indent as int, depth as nat)
                    == goal,
                block_sequence(old(self).input(), old(self)@, depth as nat) == goal,
            decreases self.input().len() - self.idx,
        {
            let before: usize = self.idx;
            match self.parse_block_item(seq, indent, depth) {
                Err(e) => {
                    return Err(e);
                },
                Ok(Progress::Stop(node)) => {
                    return Ok(node);
                },
                Ok(Progress::More(more)) => {
                    if self.idx <= before {
                        return self.fail(Failure::UnexpectedEnd);
                    }
                    seq = more;
                },
            }
        }
    }

    /// One round of reading the items of a block sequence: skips a comment, a line
    /// break or leading blanks, or ends the sequence, or reads an item.
    pub fn parse_block_item(&mut self, seq: Vec<Yaml<'a>>, indent: usize, depth: usize) -> (r:
        Result<Progress<'a, Yaml<'a>>, YamlParseError>)
        requires
            old(self).wf(),
        ensures
            old(self).item_round(
                final(self),
                r,
                block_item(
                    old(self).input(),
                    old(self)@,
                    items_view(seq@),
                    indent as int,
                    depth as nat,
                ),
            ),
        decreases depth, 1int, old(self).input().len() - old(self).idx,
    {
        let cur: u8 = self.current;
        let mut seq = seq;
        if self.at_end() {
            self.close_sequence_block(seq)
        } else if cur == HASH {
            self.chomp_comment();
            Ok(Progress::More(seq))
        } else if byte_is_linebreak(cur) {
            self.indent = 0;
            if self.bump_newline() {
                Ok(Progress::More(seq))
            } else {
                self.close_sequence_block(seq)
            }
        } else if byte_is_ws(cur) {
            self.chomp_indent();
            Ok(Progress::More(seq))
        } else if self.indent < indent {
            self.close_sequence_block(seq)
        } else if cur == DASH {
            let after: u8 = self.bytes[self.idx + 1];
            if byte_is_linebreak(after) {
                self.advance()?;
                self.advance()?;
                self.indent = 0;
                if byte_is_ws(self.current) {
                    self.chomp_indent();
                }
                if self.indent < indent {
                    return self.close_sequence_block(seq);
                }
            } else if byte_is_ws(after) {
                self.advance()?;
                self.advance()?;
                self.indent = self.indent + 2;
            } else {
                return self.fail(Failure::UnexpectedDash);
            }
            let node = self.parse_nested(depth)?;
            push_item(&mut seq, node);
            Ok(Progress::More(seq))
        } else if self.indent == indent {
            self.close_sequence_block(seq)
        } else {
            self.fail(Failure::ExpectedSequenceItem)
        }
    }

    /// Reads the tagged value that begins with `!` at the current byte.
    pub fn parse_tagged_value(&mut self, depth: usize) -> (r: Result<Yaml<'a>, YamlParseError>)
        requires
            old(self).wf(),
        ensures
            old(self).yields(final(self), r, tagged(old(self).input(), old(self)@, depth as nat)),
        decreases depth, 3int, old(self).input().len() - old(self).idx,
    {
        let start: usize = self.idx;
        let tag_name = self.parse_tag()?;
        if tag_name.as_bytes().len() >= self.bytes.len() - start - 1 {
            return self.fail(Failure::UnexpectedEnd);
        }
        let value = self.parse_nested(depth)?;
        Ok(wrap_tagged(tag_name, value))
    }
}

} // verus!
