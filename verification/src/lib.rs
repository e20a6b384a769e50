//! A parser for a small, indentation-aware configuration language in the style of YAML.
//!
//! `parse` reads a whole text into a tree of `Yaml` values that keeps the order of the
//! source: mappings are lists of entries, duplicate keys stay, and keys may be any value.
//! What a text is read as is stated over the bytes of the text by the functions of
//! `grammar`, and every reader in `parse` is proved to return exactly that.
//!
//! A value is printed in block style by `Yaml::to_string`, and projected to JSON by
//! `Yaml::to_json` and, for mappings with decorated keys, by `Yaml::to_mx`.
//! `round_trip` proves that what is printed is read back, for values made of words.
use vstd::prelude::*;

pub mod block;
pub mod bytes;
pub mod context;
pub mod cursor;
pub mod decimal;
pub mod errors;
pub mod grammar;
pub mod json;
pub mod mx;
pub mod parse;
pub mod print;
pub mod round_trip;
pub mod scalar;
pub mod scan;
pub mod tag;
pub mod value;

pub use crate::errors::{Failure, YamlParseError};
pub use crate::json::{Json, Member};
pub use crate::value::{Entry, Yaml};

use crate::cursor::{Cursor, Parsed, Parser, DEFAULT_MAX_DEPTH};
use vstd::string::*;

verus! {

/// What a text of the bytes `bytes` is read as: the value that begins at its first
/// byte, with `max_depth` levels of nesting to spend. A value costs one level, and so
/// does each collection or tag that it stands in.
pub open spec fn document(bytes: Seq<u8>, max_depth: nat) -> Parsed {
    crate::grammar::value(
        bytes,
        Cursor { idx: 0, indent: 0, expected: Seq::empty(), contexts: Seq::empty() },
        max_depth,
    )
}

/// `r` is what reading a text of the bytes `bytes` gives.
///
/// An empty text, and one too long for the machine to count the columns of, is
/// refused at line 0, column 0. Any other text gives the value of `document`, or an
/// error that reports its failure at the byte where reading stopped.
pub open spec fn reads<'a>(
    bytes: Seq<u8>,
    max_depth: nat,
    r: Result<Yaml<'a>, YamlParseError>,
) -> bool {
    if bytes.len() == 0 || bytes.len() >= usize::MAX {
        &&& r matches Err(e) && e.line == 0 && e.col == 0 && e.source is None
        &&& r matches Err(e) && e.msg matches Some(m) && m@ == (if bytes.len() == 0 {
            Failure::ExpectedInput.text()
        } else {
            Failure::InputTooLong.text()
        })
    } else {
        match document(bytes, max_depth).result {
            Ok(node) => r matches Ok(y) && y@ == node,
            Err(f) => r matches Err(e) && e.reports(
                bytes,
                document(bytes, max_depth).cursor.idx,
                f,
            ),
        }
    }
}

/// Reads `input` as one value.
pub fn parse<'a>(input: &'a str) -> (r: Result<Yaml<'a>, YamlParseError>)
    ensures
        reads(input.spec_bytes(), DEFAULT_MAX_DEPTH as nat, r),
{
    parse_with_depth(input, DEFAULT_MAX_DEPTH)
}

/// Reads `input` as one value with `max_depth` levels of nesting to spend: a value that
/// stands inside `n` collections or tags is read where `n < max_depth`, and reading
/// fails where the text nests deeper.
pub fn parse_with_depth<'a>(input: &'a str, max_depth: usize) -> (r: Result<
    Yaml<'a>,
    YamlParseError,
>)
    ensures
        reads(input.spec_bytes(), max_depth as nat, r),
{
    match Parser::new(input) {
        Err(e) => Err(e),
        Ok(parser) => {
            let mut parser = parser.with_max_depth(max_depth);
            parser.parse()
        },
    }
}

} // verus!
