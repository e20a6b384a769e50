//! Tags: `!name` before a value, and the mapping that a tagged value becomes.
use crate::bytes::{
    byte_is_linebreak, byte_is_tag_char, byte_is_ws, is_linebreak, is_tag_char, is_ws, GREATER,
    LESS,
};
use crate::cursor::{text_between, ws_end, ws_end_bounds, Cursor, Parser};
use crate::errors::{Failure, YamlParseError};
use crate::value::{mapping_view, Entry, Node, Pair, Yaml};
use vstd::prelude::*;

verus! {

/// Where the tag name that runs over byte `i` ends, and what is wrong with it, if
/// anything; `depth` angle brackets are open at `i`.
///
/// Outside angle brackets a name is made of letters, digits, `-` and `_`. `<` opens a
/// list of parameters, in which every byte but a blank and a line break is taken, and
/// `>` closes one. A `>` that closes nothing is refused, as is a name that ends with a
/// bracket open. A name may run up to the end of the input.
pub open spec fn tag_scan(bytes: Seq<u8>, i: int, depth: nat) -> (int, Option<Failure>)
    decreases bytes.len() - i,
{
    if !(0 <= i < bytes.len()) {
        (i, None)
    } else if depth == 0 && bytes[i] == GREATER {
        (i, Some(Failure::UnmatchedAngle))
    } else if depth == 0 && !(is_tag_char(bytes[i]) || bytes[i] == LESS) {
        (i, None)
    } else if depth > 0 && (is_ws(bytes[i]) || is_linebreak(bytes[i])) {
        (i, Some(Failure::UnclosedAngle))
    } else {
        let deeper: nat = if bytes[i] == LESS {
            depth + 1
        } else if depth > 0 && bytes[i] == GREATER {
            (depth - 1) as nat
        } else {
            depth
        };
        if i + 1 < bytes.len() {
            tag_scan(bytes, i + 1, deeper)
        } else {
            (
                i + 1,
                if deeper > 0 {
                    Some(Failure::UnclosedAngle)
                } else {
                    None
                },
            )
        }
    }
}

/// How the tag that begins with `!` at the cursor is read: its name, and the cursor
/// behind the blanks that follow it, or on the last byte of the input where the name
/// runs up to there.
pub open spec fn tag(bytes: Seq<u8>, c: Cursor) -> (Cursor, Result<Seq<char>, Failure>) {
    if c.idx + 1 >= bytes.len() {
        (c, Err(Failure::UnexpectedEnd))
    } else {
        let start = c.idx + 1;
        let scanned = tag_scan(bytes, start, 0);
        let stop = c.at(
            if scanned.0 < bytes.len() {
                scanned.0
            } else {
                bytes.len() - 1
            },
        );
        match scanned.1 {
            Some(f) => (stop, Err(f)),
            None => if scanned.0 == start {
                (stop, Err(Failure::ExpectedTagName))
            } else {
                match text_between(bytes, start, scanned.0) {
                    None => (stop, Err(Failure::SplitCharacter)),
                    Some(name) => (stop.at(ws_end(bytes, stop.idx)), Ok(name)),
                }
            },
        }
    }
}

/// The tag that begins at the cursor and has the name `name` runs up to the end of
/// the input, so that no value follows it.
pub open spec fn ends_input(bytes: Seq<u8>, c: Cursor, name: Seq<char>) -> bool {
    c.idx + 1 + vstd::utf8::encode_utf8(name).len() >= bytes.len()
}

/// A value under a tag: the mapping itself with the tag's name in front under the key
/// `__type`, or, for a value that is no mapping, a mapping of that entry and the value
/// under the key `__value`.
pub open spec fn tag_wrapped(name: Seq<char>, node: Node) -> Node {
    let first = Pair { key: Node::Scalar("__type"@), value: Node::Scalar(name) };
    match node {
        Node::Mapping(entries) => Node::Mapping(seq![first] + entries),
        other => Node::Mapping(seq![first, Pair { key: Node::Scalar("__value"@), value: other }]),
    }
}

/// Puts `value` under the tag `tag_name`.
pub fn wrap_tagged<'a>(tag_name: &'a str, value: Yaml<'a>) -> (r: Yaml<'a>)
    ensures
        r@ == tag_wrapped(tag_name@, value@),
{
    let ghost first = Pair { key: Node::Scalar("__type"@), value: Node::Scalar(tag_name@) };
    match value {
        Yaml::Mapping(mut entries) => {
            proof {
                mapping_view(entries);
            }
            let ghost inner = crate::value::entries_view(entries@);
            entries.insert(0, Entry::new(Yaml::Scalar("__type"), Yaml::Scalar(tag_name)));
            proof {
                mapping_view(entries);
                assert(crate::value::entries_view(entries@) =~= seq![first] + inner);
            }
            Yaml::Mapping(entries)
        },
        other => {
            let ghost inner = other@;
            let mut entries: Vec<Entry<'a>> = Vec::new();
            entries.push(Entry::new(Yaml::Scalar("__type"), Yaml::Scalar(tag_name)));
            entries.push(Entry::new(Yaml::Scalar("__value"), other));
            proof {
                mapping_view(entries);
                assert(crate::value::entries_view(entries@) =~= seq![
                    first,
                    Pair { key: Node::Scalar("__value"@), value: inner },
                ]);
            }
            Yaml::Mapping(entries)
        },
    }
}

impl<'a> Parser<'a> {
    fn finish_tag(&mut self, tag_start: usize, tag_end: usize) -> (r: Result<
        &'a str,
        YamlParseError,
    >)
        requires
            old(self).wf(),
            tag_start <= tag_end <= old(self).input().len(),
            old(self).idx == tag_end || (old(self).idx == tag_end - 1 && tag_end == old(
                self,
            ).input().len()),
        ensures
            ({
                let bytes = old(self).input();
                if tag_end == tag_start {
                    &&& old(self).steps_to(final(self), old(self)@)
                    &&& r matches Err(e) && e.reports(
                        bytes,
                        old(self)@.idx,
                        Failure::ExpectedTagName,
                    )
                } else {
                    match text_between(bytes, tag_start as int, tag_end as int) {
                        None => {
                            &&& old(self).steps_to(final(self), old(self)@)
                            &&& r matches Err(e) && e.reports(
                                bytes,
                                old(self)@.idx,
                                Failure::SplitCharacter,
                            )
                        },
                        Some(name) => {
                            &&& old(self).steps_to(
                                final(self),
                                old(self)@.at(ws_end(bytes, old(self)@.idx)),
                            )
                            &&& r matches Ok(t) && t@ == name
                        },
                    }
                }
            }),
    {
        if tag_end == tag_start {
            return self.fail(Failure::ExpectedTagName);
        }
        match self.slice_range((tag_start, tag_end)) {
            None => self.fail(Failure::SplitCharacter),
            Some(tag_name) => {
                self.chomp_whitespace();
                Ok(tag_name)
            },
        }
    }

    /// Reads the tag that begins with `!` at the current byte and the blanks behind it.
    pub fn parse_tag(&mut self) -> (r: Result<&'a str, YamlParseError>)
        requires
            old(self).wf(),
        ensures
            old(self).steps_to(final(self), tag(old(self).input(), old(self)@).0),
            match r {
                Ok(name) => tag(old(self).input(), old(self)@).1 == Ok::<Seq<char>, Failure>(
                    name@,
                ),
                Err(e) => tag(old(self).input(), old(self)@).1 matches Err(f) && e.reports(
                    old(self).input(),
                    final(self)@.idx,
                    f,
                ),
            },
    {
        self.advance()?;
        let tag_start: usize = self.idx;
        let mut depth: usize = 0;
        loop
            invariant
                old(self).steps_to(self, old(self)@.at(self.idx as int)),
                old(self).idx + 1 < old(self).input().len(),
                tag_start == old(self).idx + 1,
                tag_start <= self.idx,
                depth <= self.idx - tag_start,
                tag_scan(self.input(), self.idx as int, depth as nat) == tag_scan(
                    old(self).input(),
                    old(self)@.idx + 1,
                    0,
                ),
            decreases self.input().len() - self.idx,
        {
            let cur: u8 = self.current;
            if depth == 0 && cur == GREATER {
                return self.fail(Failure::UnmatchedAngle);
            } else if depth == 0 && !(byte_is_tag_char(cur) || cur == LESS) {
                let tag_end: usize = self.idx;
                return self.finish_tag(tag_start, tag_end);
            } else if depth > 0 && (byte_is_ws(cur) || byte_is_linebreak(cur)) {
                return self.fail(Failure::UnclosedAngle);
            }
            let deeper: usize = if cur == LESS {
                depth + 1
            } else if depth > 0 && cur == GREATER {
                depth - 1
            } else {
                depth
            };
            if !self.bump() {
                if deeper > 0 {
                    return self.fail(Failure::UnclosedAngle);
                }
                let tag_end: usize = self.idx + 1;
                return self.finish_tag(tag_start, tag_end);
            }
            depth = deeper;
        }
    }
}

} // verus!
