//! Mappings with decorated keys `+name[label](arg)` as JSON objects.
use crate::bytes::{LBRACKET, LPAREN, PLUS, RBRACKET, RPAREN};
use crate::cursor::{text_between, text_slice};
use crate::json::{
    key_string, key_text, object_builder, object_from, projected, with_member, Json, JsonNode,
    MemberNode, ObjectBuilder,
};
use crate::print::block;
use crate::value::{entries_view, entry_at, mapping_view, Entry, Node, Yaml};
use vstd::prelude::*;
use vstd::string::*;
use vstd::utf8::*;

verus! {

/// The parts of a decorated key `+name[label](arg)`.
pub struct MxKey {
    pub name: Seq<char>,
    pub label: Seq<char>,
    /// The text between the parentheses, where the key has them.
    pub arg: Option<Seq<char>>,
}

/// One of `[ ] ( )`.
pub open spec fn is_bracket(b: u8) -> bool {
    b == LBRACKET || b == RBRACKET || b == LPAREN || b == RPAREN
}

/// The first place from `from` on at which `b` stands, or the length of `bytes`.
pub open spec fn find_byte(bytes: Seq<u8>, from: int, b: u8) -> int
    decreases bytes.len() - from,
{
    if 0 <= from < bytes.len() && bytes[from] != b {
        find_byte(bytes, from + 1, b)
    } else if from < bytes.len() {
        from
    } else {
        bytes.len() as int
    }
}

/// A bracket or a parenthesis stands somewhere from `from` up to `to`.
pub open spec fn has_bracket(bytes: Seq<u8>, from: int, to: int) -> bool {
    exists|i: int| from <= i < to && 0 <= i < bytes.len() && is_bracket(#[trigger] bytes[i])
}

/// The last place from `from` up to `upto` at which `](` begins, or -1.
pub open spec fn last_sep(bytes: Seq<u8>, from: int, upto: int) -> int
    decreases upto - from + 1,
{
    if upto < from {
        -1
    } else if 0 <= upto && upto + 1 < bytes.len() && bytes[upto] == RBRACKET && bytes[upto + 1]
        == LPAREN {
        upto
    } else {
        last_sep(bytes, from, upto - 1)
    }
}

/// The three texts of a key, where each lies on character boundaries.
pub open spec fn mx_parts(
    bytes: Seq<u8>,
    open: int,
    close: int,
    arg: Option<(int, int)>,
) -> Option<MxKey> {
    match (text_between(bytes, 1, open), text_between(bytes, open + 1, close)) {
        (Some(name), Some(label)) => match arg {
            None => Some(MxKey { name, label, arg: None }),
            Some(range) => match text_between(bytes, range.0, range.1) {
                Some(text) => Some(MxKey { name, label, arg: Some(text) }),
                None => None,
            },
        },
        _ => None,
    }
}

/// The parts of a decorated key, where `bytes` is one.
///
/// A decorated key begins with `+`. Its name runs up to the first `[` and holds no
/// bracket and no parenthesis. Where the key ends with `)`, its label runs up to the
/// last `](` and the text behind that, without the closing parenthesis, is its
/// argument. Where it ends with `]`, its label runs up to there and it has no
/// argument. Nothing else is a decorated key.
pub open spec fn mx_key(bytes: Seq<u8>) -> Option<MxKey> {
    if bytes.len() == 0 || bytes[0] != PLUS {
        None
    } else {
        let open = find_byte(bytes, 1, LBRACKET);
        let last = bytes.len() - 1;
        if open >= bytes.len() || has_bracket(bytes, 1, open) {
            None
        } else if bytes[last] == RPAREN {
            let sep = last_sep(bytes, open + 1, last - 1);
            if sep < 0 {
                None
            } else {
                mx_parts(bytes, open, sep, Some((sep + 2, last)))
            }
        } else if bytes[last] == RBRACKET {
            mx_parts(bytes, open, last, None)
        } else {
            None
        }
    }
}

/// The object that reports what is wrong with a value: under `+error`, the message
/// as `__name` and the value's text as `__value`.
pub open spec fn mx_error(message: Seq<char>, content: Seq<char>) -> JsonNode {
    JsonNode::Object(
        seq![
            MemberNode {
                name: "+error"@,
                value: JsonNode::Object(
                    with_member(
                        seq![MemberNode { name: "__name"@, value: JsonNode::Text(message) }],
                        "__value"@,
                        JsonNode::Text(content),
                    ),
                ),
            },
        ],
    )
}

/// The object under a decorated key: the members of the value's projection, or the
/// projection itself as `__content` where it is no object; then the label as `__name`
/// and, where the key has one, the argument as `__value`.
pub open spec fn decorated(value: Node, key: MxKey) -> JsonNode {
    let base = match value {
        Node::Mapping(entries) => object_from(value, entries.len() as int),
        _ => seq![MemberNode { name: "__content"@, value: projected(value) }],
    };
    let named = with_member(base, "__name"@, JsonNode::Text(key.label));
    JsonNode::Object(
        match key.arg {
            Some(arg) => with_member(named, "__value"@, JsonNode::Text(arg)),
            None => named,
        },
    )
}

/// The members that the first `n` entries of the mapping `parent` give, each under
/// `+` and the name of its key; or the text of the first key that is not decorated.
pub open spec fn mx_from(parent: Node, n: int) -> Result<Seq<MemberNode>, Seq<char>>
    decreases n,
{
    match parent {
        Node::Mapping(entries) => if 0 < n <= entries.len() {
            match mx_from(parent, n - 1) {
                Err(key) => Err(key),
                Ok(members) => {
                    let key = key_text(entries[n - 1].key);
                    match mx_key(encode_utf8(key)) {
                        None => Err(key),
                        Some(parts) => Ok(
                            with_member(
                                members,
                                "+"@ + parts.name,
                                decorated(entries[n - 1].value, parts),
                            ),
                        ),
                    }
                },
            }
        } else {
            Ok(Seq::empty())
        },
        _ => Ok(Seq::empty()),
    }
}

/// A mapping whose keys are all decorated as the object of its decorated members; any
/// other value as the object that reports what is wrong with it.
pub open spec fn mx_projected(node: Node) -> JsonNode {
    match node {
        Node::Mapping(entries) => match mx_from(node, entries.len() as int) {
            Ok(members) => JsonNode::Object(members),
            Err(key) => mx_error(
                "Key '"@ + key + "' does not match expected format +name[label](value)"@,
                block(node, 0),
            ),
        },
        _ => mx_error("Top level value must be an object"@, block(node, 0)),
    }
}

fn byte_is_bracket(b: u8) -> (r: bool)
    ensures
        r == is_bracket(b),
{
    b == LBRACKET || b == RBRACKET || b == LPAREN || b == RPAREN
}

fn owned_slice(key: &str, start: usize, end: usize) -> (r: Option<String>)
    ensures
        match r {
            Some(t) => text_between(key.spec_bytes(), start as int, end as int) == Some(t@),
            None => text_between(key.spec_bytes(), start as int, end as int) is None,
        },
{
    match text_slice(key, start, end) {
        Some(t) => Some(String::from_str(t)),
        None => None,
    }
}

fn parts_of(key: &str, open: usize, close: usize, arg: Option<(usize, usize)>) -> (r: Option<
    (String, String, Option<String>),
>)
    ensures
        matches_parts(
            r,
            mx_parts(
                key.spec_bytes(),
                open as int,
                close as int,
                match arg {
                    Some(range) => Some((range.0 as int, range.1 as int)),
                    None => None,
                },
            ),
        ),
{
    if open == usize::MAX {
        assert(text_between(key.spec_bytes(), open + 1, close as int) is None);
        return None;
    }
    match (owned_slice(key, 1, open), owned_slice(key, open + 1, close)) {
        (Some(name), Some(label)) => match arg {
            None => Some((name, label, None)),
            Some(range) => match owned_slice(key, range.0, range.1) {
                Some(text) => Some((name, label, Some(text))),
                None => None,
            },
        },
        _ => None,
    }
}

/// `r` holds the parts `parts`, or neither holds any.
pub open spec fn matches_parts(
    r: Option<(String, String, Option<String>)>,
    parts: Option<MxKey>,
) -> bool {
    match r {
        Some(found) => parts == Some(
            MxKey {
                name: found.0@,
                label: found.1@,
                arg: match found.2 {
                    Some(text) => Some(text@),
                    None => None,
                },
            },
        ),
        None => parts is None,
    }
}

impl<'a> Yaml<'a> {
    /// Takes a decorated key `+name[label](arg)` apart, where `key` is one: gives its
    /// name, its label and, where it has one, its argument.
    pub fn parse_mx_key(key: &str) -> (r: Option<(String, String, Option<String>)>)
        ensures
            matches_parts(r, mx_key(key.spec_bytes())),
    {
        let bytes = key.as_bytes();
        let n: usize = bytes.len();
        if n == 0 || bytes[0] != PLUS {
            return None;
        }
        let mut open: usize = 1;
        while open < n && bytes[open] != LBRACKET
            invariant
                bytes@ == key.spec_bytes(),
                n == bytes@.len(),
                1 <= open <= n,
                find_byte(bytes@, open as int, LBRACKET) == find_byte(bytes@, 1, LBRACKET),
                forall|i: int| 1 <= i < open ==> bytes@[i] != LBRACKET,
                !has_bracket(bytes@, 1, open as int),
            decreases n - open,
        {
            if byte_is_bracket(bytes[open]) {
                proof {
                    let first = find_byte(bytes@, 1, LBRACKET);
                    find_byte_bounds(bytes@, open + 1, LBRACKET);
                    assert(first == find_byte(bytes@, open + 1, LBRACKET));
                    assert(is_bracket(bytes@[open as int]));
                    assert(first >= bytes@.len() || has_bracket(bytes@, 1, first));
                }
                return None;
            }
            open = open + 1;
        }
        if open >= n {
            return None;
        }
        let last: usize = n - 1;
        if bytes[last] == RPAREN {
            let mut sep: usize = last - 1;
            while sep > open && !(bytes[sep] == RBRACKET && bytes[sep + 1] == LPAREN)
                invariant
                    bytes@ == key.spec_bytes(),
                    n == bytes@.len(),
                    last == n - 1,
                    open <= sep < last,
                    last_sep(bytes@, open + 1, sep as int) == last_sep(bytes@, open + 1, last - 1),
                decreases sep,
            {
                sep = sep - 1;
            }
            if sep <= open {
                return None;
            }
            parts_of(key, open, sep, Some((sep + 2, last)))
        } else if bytes[last] == RBRACKET {
            parts_of(key, open, last, None)
        } else {
            None
        }
    }

    /// The object that reports what is wrong with a value.
    pub fn make_mx_error(message: &str, yaml_content: &str) -> (j: Json)
        ensures
            j@ == mx_error(message@, yaml_content@),
    {
        let mut inner = ObjectBuilder::new();
        inner.insert(String::from_str("__name"), Json::String(String::from_str(message)));
        inner.insert(String::from_str("__value"), Json::String(String::from_str(yaml_content)));
        let mut outer = ObjectBuilder::new();
        outer.insert(String::from_str("+error"), inner.finish());
        proof {
            reveal_with_fuel(with_member, 2);
        }
        outer.finish()
    }

    /// The object under a decorated key whose label is `label` and whose argument is
    /// `arg`.
    pub fn decorate(&self, label: String, arg: Option<String>) -> (j: Json)
        ensures
            j@ == decorated(
                self@,
                MxKey {
                    name: Seq::empty(),
                    label: label@,
                    arg: match arg {
                        Some(text) => Some(text@),
                        None => None,
                    },
                },
            ),
    {
        let mut b = match self {
            Yaml::Mapping(entries) => {
                proof {
                    mapping_view(*entries);
                }
                object_builder(entries)
            },
            other => {
                let mut b = ObjectBuilder::new();
                b.insert(String::from_str("__content"), other.to_json());
                b
            },
        };
        b.insert(String::from_str("__name"), Json::String(label));
        match arg {
            Some(text) => {
                b.insert(String::from_str("__value"), Json::String(text));
            },
            None => {},
        }
        b.finish()
    }

    /// The value as the object of its decorated members: each entry of a mapping under
    /// `+` and the name of its key, with the label and the argument of the key among
    /// its members. A value that is no mapping, or a key that is not decorated, gives
    /// the object that reports it.
    pub fn to_mx(&self) -> (j: Json)
        ensures
            j@ == mx_projected(self@),
    {
        let entries = match self {
            Yaml::Mapping(entries) => entries,
            _ => {
                let content = self.to_string();
                return Self::make_mx_error("Top level value must be an object", content.as_str());
            },
        };
        proof {
            mapping_view(*entries);
        }
        let mut result = ObjectBuilder::new();
        let mut i: usize = 0;
        while i < entries.len()
            invariant
                self@ == Node::Mapping(entries_view(entries@)),
                i <= entries@.len(),
                result.wf(),
                mx_from(self@, i as int) == Ok::<Seq<MemberNode>, Seq<char>>(result@),
            decreases entries@.len() - i,
        {
            proof {
                entry_at(entries@, i as int);
            }
            let key = key_string(&entries[i].key);
            match Self::parse_mx_key(key.as_str()) {
                Some((name, label, arg)) => {
                    let mut new_key = String::from_str("+");
                    new_key.append(name.as_str());
                    let value = entries[i].value.decorate(label, arg);
                    result.insert(new_key, value);
                },
                None => {
                    let mut message = String::from_str("Key '");
                    message.append(key.as_str());
                    message.append("' does not match expected format +name[label](value)");
                    let content = self.to_string();
                    proof {
                        mx_from_fails(self@, i + 1, entries@.len() as int);
                    }
                    return Self::make_mx_error(message.as_str(), content.as_str());
                },
            }
            i = i + 1;
        }
        result.finish()
    }
}

/// A place at which a byte is found lies at or behind the place where the search
/// began, and no further than the length of the bytes.
pub proof fn find_byte_bounds(bytes: Seq<u8>, from: int, b: u8)
    requires
        0 <= from <= bytes.len(),
    ensures
        from <= find_byte(bytes, from, b) <= bytes.len(),
    decreases bytes.len() - from,
{
    if from < bytes.len() && bytes[from] != b {
        find_byte_bounds(bytes, from + 1, b);
    }
}

/// Once a key is found that is not decorated, further entries change nothing.
pub proof fn mx_from_fails(parent: Node, n: int, m: int)
    requires
        mx_from(parent, n) is Err,
        parent matches Node::Mapping(entries) && n <= m <= entries.len(),
    ensures
        mx_from(parent, m) == mx_from(parent, n),
    decreases m - n,
{
    if n < m {
        mx_from_fails(parent, n, m - 1);
    }
}

} // verus!
