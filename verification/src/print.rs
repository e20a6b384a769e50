//! Values as text in block style.
use crate::block::{push_repeated, repeated, repeated_len};
use crate::decimal::{push_signed_decimal, signed_decimal};
use crate::value::{
    entries_view, entry_at, entry_view, items_view, mapping_view, sequence_view, Entry, Node, Pair,
    Yaml,
};
use vstd::prelude::*;
use vstd::string::*;
use vstd::utf8::*;

verus! {

/// By how many columns what stands inside a collection is indented.
pub const INDENT_AMT: usize = 2;

/// One level further in, as far as the machine counts.
pub open spec fn further(indent: usize) -> usize {
    if indent <= usize::MAX - INDENT_AMT {
        (indent + INDENT_AMT) as usize
    } else {
        indent
    }
}

/// A value that is no collection.
pub open spec fn is_scalar_node(node: Node) -> bool {
    !(node is Sequence) && !(node is Mapping)
}

/// The name of the tag that a mapping stands for: the text under its first key, where
/// that key is the scalar `__type` and a scalar stands under it.
pub open spec fn tag_name(node: Node) -> Option<Seq<char>> {
    match node {
        Node::Mapping(entries) => if entries.len() > 0 && entries[0].key == Node::Scalar(
            "__type"@,
        ) {
            match entries[0].value {
                Node::Scalar(tag) => Some(tag),
                _ => None,
            }
        } else {
            None
        },
        _ => None,
    }
}

/// A value that was put under a tag stands for that tag.
pub proof fn wrapped_stands_for_tag(name: Seq<char>, node: Node)
    ensures
        tag_name(crate::tag::tag_wrapped(name, node)) == Some(name),
        !(node is Mapping) ==> holds_value(crate::tag::tag_wrapped(name, node)->Mapping_0),
{
    let first = Pair { key: Node::Scalar("__type"@), value: Node::Scalar(name) };
    match node {
        Node::Mapping(entries) => {
            assert((seq![first] + entries)[0] == first);
        },
        _ => {},
    }
}

/// A tagged mapping that holds one value that is no mapping: two entries, the second
/// under the scalar key `__value`.
pub open spec fn holds_value(entries: Seq<Pair>) -> bool {
    entries.len() == 2 && entries[1].key == Node::Scalar("__value"@)
}

/// How many items or entries a collection holds.
pub open spec fn count(node: Node) -> nat {
    match node {
        Node::Sequence(items) => items.len(),
        Node::Mapping(entries) => entries.len(),
        _ => 0,
    }
}

/// The text of a value that is no collection.
pub open spec fn leaf(node: Node) -> Seq<char> {
    match node {
        Node::Scalar(t) => t,
        Node::Text(t) => t,
        Node::Int(i) => signed_decimal(i),
        Node::Float(t) => t,
        Node::Bool(b) => if b {
            "true"@
        } else {
            "false"@
        },
        _ => Seq::empty(),
    }
}

/// A value in block style at `indent`.
///
/// A scalar is its text. A sequence is its items, one after the other. A mapping that
/// stands for a tag is the tag behind `!`, then its value on the same line or its
/// further entries on the lines below; any other mapping is its entries.
pub open spec fn block(node: Node, indent: usize) -> Seq<char>
    decreases node, count(node) + 1,
{
    match node {
        Node::Sequence(items) => items_from(node, 0, indent),
        Node::Mapping(entries) => match tag_name(node) {
            Some(tag) => repeated(" "@, indent as nat) + "!"@ + tag + if holds_value(entries) {
                " "@ + block(entries[1].value, indent) + "\n"@
            } else {
                "\n"@ + entries_from(node, 1, indent)
            },
            None => entries_from(node, 0, indent),
        },
        _ => leaf(node),
    }
}

/// The items of the sequence `parent` from the one at `from` on, one after the other.
pub open spec fn items_from(parent: Node, from: int, indent: usize) -> Seq<char>
    decreases parent, count(parent) - from,
{
    match parent {
        Node::Sequence(items) => if 0 <= from < items.len() {
            item_text(items[from], indent) + items_from(parent, from + 1, indent)
        } else {
            Seq::empty()
        },
        _ => Seq::empty(),
    }
}

/// One item of a sequence at `indent`.
///
/// It begins with `-`. A scalar follows on the same line; a sequence on the lines
/// below, one level further in. Of a mapping the first entry follows on the same line
/// and the others stand below, one level further in; an empty one is `{}`.
pub open spec fn item_text(el: Node, indent: usize) -> Seq<char>
    decreases el, count(el) + 3,
{
    let inner = further(indent);
    repeated(" "@, indent as nat) + "-"@ + (match el {
        Node::Sequence(_) => "\n"@ + block(el, inner),
        Node::Mapping(entries) => if entries.len() > 0 {
            (if is_scalar_node(entries[0].key) {
                " "@ + block(entries[0].key, indent)
            } else {
                "\n"@ + block(entries[0].key, further(inner)) + repeated(" "@, inner as nat)
            }) + ":"@ + after_colon(entries[0].value, inner) + entries_from(el, 1, inner)
        } else {
            " {}\n"@
        },
        _ => " "@ + block(el, indent) + "\n"@,
    })
}

/// The entries of the mapping `parent` from the one at `from` on, one after the other.
pub open spec fn entries_from(parent: Node, from: int, indent: usize) -> Seq<char>
    decreases parent, count(parent) - from,
{
    match parent {
        Node::Mapping(entries) => if 0 <= from < entries.len() {
            entry_text(entries[from], indent) + entries_from(parent, from + 1, indent)
        } else {
            Seq::empty()
        },
        _ => Seq::empty(),
    }
}

/// One entry of a mapping at `indent`.
///
/// A scalar key stands at `indent`; any other key stands one level further in on
/// lines of its own, and the colon below it at `indent`.
pub open spec fn entry_text(e: Pair, indent: usize) -> Seq<char>
    decreases e, 0nat,
{
    (if is_scalar_node(e.key) {
        repeated(" "@, indent as nat) + block(e.key, indent)
    } else {
        block(e.key, further(indent)) + repeated(" "@, indent as nat)
    }) + ":"@ + after_colon(e.value, indent)
}

/// A value behind the colon of its key, which stands at `indent`.
///
/// A scalar follows on the same line. A tagged mapping follows as `!` and the tag,
/// then `{}` where it holds nothing else, its value on the same line, or its further
/// entries below, one level further in. Any other collection stands below, one level
/// further in.
pub open spec fn after_colon(value: Node, indent: usize) -> Seq<char>
    decreases value, count(value) + 2,
{
    match tag_name(value) {
        Some(tag) => {
            let entries = value->Mapping_0;
            " !"@ + tag + if entries.len() == 1 {
                " {}\n"@
            } else if holds_value(entries) {
                " "@ + block(entries[1].value, indent) + "\n"@
            } else {
                "\n"@ + entries_from(value, 1, further(indent))
            }
        },
        None => if is_scalar_node(value) {
            " "@ + block(value, indent) + "\n"@
        } else {
            "\n"@ + block(value, further(indent))
        },
    }
}

/// Whether two texts are the same.
pub fn same_text(a: &str, b: &str) -> (r: bool)
    ensures
        r == (a@ == b@),
{
    broadcast use encode_utf8_decode_utf8;

    let x = a.as_bytes();
    let y = b.as_bytes();
    if x.len() != y.len() {
        return false;
    }
    let mut i: usize = 0;
    while i < x.len()
        invariant
            x@ == a.spec_bytes(),
            y@ == b.spec_bytes(),
            x@.len() == y@.len(),
            i <= x@.len(),
            forall|k: int| 0 <= k < i ==> x@[k] == y@[k],
        decreases x@.len() - i,
    {
        if x[i] != y[i] {
            return false;
        }
        i = i + 1;
    }
    assert(x@ =~= y@);
    assert(a@ == decode_utf8(encode_utf8(a@)));
    assert(b@ == decode_utf8(encode_utf8(b@)));
    true
}

/// Whether a value is no collection.
pub fn is_scalar(node: &Yaml<'_>) -> (r: bool)
    ensures
        r == is_scalar_node(node@),
{
    match node {
        Yaml::Sequence(items) => {
            proof {
                sequence_view(*items);
            }
            false
        },
        Yaml::Mapping(entries) => {
            proof {
                mapping_view(*entries);
            }
            false
        },
        _ => true,
    }
}

/// The name of the tag that a value stands for, if it is a tagged mapping.
pub fn get_tag_name<'a>(node: &Yaml<'a>) -> (r: Option<&'a str>)
    ensures
        match r {
            Some(tag) => tag_name(node@) == Some(tag@),
            None => tag_name(node@) is None,
        },
{
    match node {
        Yaml::Mapping(entries) => {
            proof {
                mapping_view(*entries);
            }
            if entries.len() > 0 {
                match (&entries[0].key, &entries[0].value) {
                    (Yaml::Scalar(k), Yaml::Scalar(tag)) => if same_text(k, "__type") {
                        Some(*tag)
                    } else {
                        None
                    },
                    _ => None,
                }
            } else {
                None
            }
        },
        _ => None,
    }
}

fn value_held(entries: &Vec<Entry<'_>>) -> (r: bool)
    ensures
        r == holds_value(entries_view(entries@)),
{
    if entries.len() == 2 {
        match &entries[1].key {
            Yaml::Scalar(k) => same_text(k, "__value"),
            _ => false,
        }
    } else {
        false
    }
}

fn indent_further(indent: usize) -> (r: usize)
    ensures
        r == further(indent),
{
    if indent <= usize::MAX - INDENT_AMT {
        indent + INDENT_AMT
    } else {
        indent
    }
}

/// Appends `indent` blanks to `out`.
pub fn print_indent(indent: usize, out: &mut String)
    ensures
        final(out)@ == old(out)@ + repeated(" "@, indent as nat),
{
    push_repeated(out, " ", indent);
}

/// Appends a value behind the colon of its key, which stands at `indent`.
pub fn print_value_after_colon(value: &Yaml<'_>, indent: usize, out: &mut String)
    ensures
        final(out)@ == old(out)@ + after_colon(value@, indent),
    decreases value@, count(value@) + 2,
{
    let ghost start = out@;
    if let Some(tag) = get_tag_name(value) {
        if let Yaml::Mapping(value_map) = value {
            proof {
                mapping_view(*value_map);
            }
            out.append(" !");
            out.append(tag);
            if value_map.len() == 1 {
                out.append(" {}\n");
                assert(out@ =~= start + after_colon(value@, indent));
                return ;
            }
            if value_held(value_map) {
                proof {
                    entry_at(value_map@, 1);
                }
                out.append(" ");
                print_yaml(&value_map[1].value, indent, out);
                out.append("\n");
                assert(out@ =~= start + after_colon(value@, indent));
                return ;
            }
            out.append("\n");
            print_mapping_entries(value_map, 1, indent_further(indent), out);
            assert(out@ =~= start + after_colon(value@, indent));
            return ;
        }
    }
    if is_scalar(value) {
        out.append(" ");
        print_yaml(value, indent, out);
        out.append("\n");
        assert(out@ =~= start + after_colon(value@, indent));
    } else {
        out.append("\n");
        print_yaml(value, indent_further(indent), out);
        assert(out@ =~= start + after_colon(value@, indent));
    }
}

/// Appends one entry of a mapping at `indent`.
pub fn print_mapping_entry(entry: &Entry<'_>, indent: usize, out: &mut String)
    ensures
        final(out)@ == old(out)@ + entry_text(entry@, indent),
    decreases entry@, 0nat,
{
    let ghost start = out@;
    proof {
        entry_view(*entry);
    }
    if is_scalar(&entry.key) {
        print_indent(indent, out);
        print_yaml(&entry.key, indent, out);
    } else {
        print_yaml(&entry.key, indent_further(indent), out);
        print_indent(indent, out);
    }
    out.append(":");
    print_value_after_colon(&entry.value, indent, out);
    assert(out@ =~= start + entry_text(entry@, indent));
}

/// Appends the entries of a mapping from the one at `from` on, at `indent`.
pub fn print_mapping_entries(
    entries: &Vec<Entry<'_>>,
    from: usize,
    indent: usize,
    out: &mut String,
)
    ensures
        final(out)@ == old(out)@ + entries_from(
            Node::Mapping(entries_view(entries@)),
            from as int,
            indent,
        ),
    decreases Node::Mapping(entries_view(entries@)), entries@.len(),
{
    let ghost parent = Node::Mapping(entries_view(entries@));
    let ghost goal = out@ + entries_from(parent, from as int, indent);
    let mut i: usize = from;
    assert(out@ + entries_from(parent, i as int, indent) =~= goal);
    while i < entries.len()
        invariant
            parent == Node::Mapping(entries_view(entries@)),
            out@ + entries_from(parent, i as int, indent) == goal,
        decreases entries@.len() - i,
    {
        let ghost before = out@;
        print_mapping_entry(&entries[i], indent, out);
        i = i + 1;
        assert(out@ + entries_from(parent, i as int, indent) =~= before + entries_from(
            parent,
            i - 1,
            indent,
        ));
    }
    assert(out@ =~= goal);
}

/// Appends the first entry of a mapping that is an item of a sequence at `indent`,
/// behind the `-` of the item, and its other entries below.
fn print_item_entries(map: &Vec<Entry<'_>>, indent: usize, out: &mut String)
    requires
        map@.len() > 0,
    ensures
        final(out)@ == old(out)@ + item_text(Node::Mapping(entries_view(map@)), indent).skip(
            indent + 1,
        ),
    decreases Node::Mapping(entries_view(map@)), map@.len() + 2,
{
    let ghost start = out@;
    let ghost el = Node::Mapping(entries_view(map@));
    let inner: usize = indent_further(indent);
    let first = &map[0];
    proof {
        entry_at(map@, 0);
        assert(el->Mapping_0[0].key == first.key@);
        assert(el->Mapping_0[0].value == first.value@);
    }
    if is_scalar(&first.key) {
        out.append(" ");
        print_yaml(&first.key, indent, out);
    } else {
        out.append("\n");
        print_yaml(&first.key, indent_further(inner), out);
        print_indent(inner, out);
    }
    out.append(":");
    print_value_after_colon(&first.value, inner, out);
    print_mapping_entries(map, 1, inner, out);
    proof {
        let head = repeated(" "@, indent as nat) + "-"@;
        let entries = entries_view(map@);
        let rest = (if is_scalar_node(entries[0].key) {
            " "@ + block(entries[0].key, indent)
        } else {
            "\n"@ + block(entries[0].key, further(inner)) + repeated(" "@, inner as nat)
        }) + ":"@ + after_colon(entries[0].value, inner) + entries_from(el, 1, inner);
        reveal_strlit(" ");
        reveal_strlit("-");
        repeated_len(" "@, indent as nat);
        assert(head.len() == indent + 1);
        assert(item_text(el, indent) == head + rest);
        assert((head + rest).skip(indent + 1) =~= rest);
        assert(out@ =~= start + rest);
    }
}

/// Appends one item of a sequence at `indent`.
pub fn print_sequence_item(el: &Yaml<'_>, indent: usize, out: &mut String)
    ensures
        final(out)@ == old(out)@ + item_text(el@, indent),
    decreases el@, count(el@) + 3,
{
    let ghost start = out@;
    let inner: usize = indent_further(indent);
    print_indent(indent, out);
    out.append("-");
    let ghost head = repeated(" "@, indent as nat) + "-"@;
    assert(out@ =~= start + head);
    match el {
        Yaml::Sequence(items) => {
            proof {
                sequence_view(*items);
            }
            out.append("\n");
            print_yaml(el, inner, out);
            assert(out@ =~= start + item_text(el@, indent));
        },
        Yaml::Mapping(map) => {
            proof {
                mapping_view(*map);
            }
            if map.len() > 0 {
                print_item_entries(map, indent, out);
                proof {
                    let whole = item_text(el@, indent);
                    reveal_strlit(" ");
                    reveal_strlit("-");
                    repeated_len(" "@, indent as nat);
                    assert(head.len() == indent + 1);
                    assert(whole.subrange(0, indent + 1) =~= head);
                    assert(whole =~= head + whole.skip(indent + 1));
                    assert(out@ =~= start + whole);
                }
            } else {
                out.append(" {}\n");
                assert(out@ =~= start + item_text(el@, indent));
            }
        },
        _ => {
            out.append(" ");
            print_yaml(el, indent, out);
            out.append("\n");
            assert(out@ =~= start + item_text(el@, indent));
        },
    }
}

/// Appends the items of a sequence at `indent`.
pub fn print_sequence_items(items: &Vec<Yaml<'_>>, indent: usize, out: &mut String)
    ensures
        final(out)@ == old(out)@ + items_from(Node::Sequence(items_view(items@)), 0, indent),
    decreases Node::Sequence(items_view(items@)), items@.len(),
{
    let ghost parent = Node::Sequence(items_view(items@));
    let ghost goal = out@ + items_from(parent, 0, indent);
    let mut i: usize = 0;
    while i < items.len()
        invariant
            parent == Node::Sequence(items_view(items@)),
            out@ + items_from(parent, i as int, indent) == goal,
        decreases items@.len() - i,
    {
        let ghost before = out@;
        print_sequence_item(&items[i], indent, out);
        i = i + 1;
        assert(out@ + items_from(parent, i as int, indent) =~= before + items_from(
            parent,
            i - 1,
            indent,
        ));
    }
    assert(out@ =~= goal);
}

/// Appends a value in block style at `indent`.
pub fn print_yaml(node: &Yaml<'_>, indent: usize, out: &mut String)
    ensures
        final(out)@ == old(out)@ + block(node@, indent),
    decreases node@, count(node@) + 1,
{
    let ghost start = out@;
    match node {
        Yaml::Scalar(slice) => {
            out.append(slice);
        },
        Yaml::String(s) => {
            out.append(s.as_str());
        },
        Yaml::Int(i) => {
            push_signed_decimal(out, *i);
        },
        Yaml::Float(text) => {
            out.append(text);
        },
        Yaml::Bool(b) => {
            if *b {
                out.append("true");
            } else {
                out.append("false");
            }
        },
        Yaml::Sequence(seq) => {
            proof {
                sequence_view(*seq);
            }
            print_sequence_items(seq, indent, out);
        },
        Yaml::Mapping(map) => {
            proof {
                mapping_view(*map);
            }
            if let Some(tag) = get_tag_name(node) {
                print_indent(indent, out);
                out.append("!");
                out.append(tag);
                if value_held(map) {
                    proof {
                        entry_at(map@, 1);
                    }
                    out.append(" ");
                    print_yaml(&map[1].value, indent, out);
                    out.append("\n");
                    assert(out@ =~= start + block(node@, indent));
                    return ;
                }
                out.append("\n");
                print_mapping_entries(map, 1, indent, out);
                assert(out@ =~= start + block(node@, indent));
                return ;
            }
            print_mapping_entries(map, 0, indent, out);
        },
    }
}

impl<'a> Yaml<'a> {
    /// The text of the value in block style.
    pub open spec fn rendering(&self) -> Seq<char> {
        block(self@, 0)
    }

    /// The value as text in block style.
    pub fn to_string(&self) -> (s: String)
        ensures
            s@ == self.rendering(),
    {
        let mut out = String::new();
        print_yaml(self, 0, &mut out);
        assert(out@ =~= block(self@, 0));
        out
    }
}

impl<'a> Entry<'a> {
    /// The entry as text: key, colon, value.
    pub fn to_string(&self) -> (s: String)
        ensures
            s@ == block(self.key@, 0) + ": "@ + block(self.value@, 0),
    {
        let mut out = String::new();
        print_yaml(&self.key, 0, &mut out);
        out.append(": ");
        print_yaml(&self.value, 0, &mut out);
        assert(out@ =~= block(self.key@, 0) + ": "@ + block(self.value@, 0));
        out
    }
}

} // verus!
