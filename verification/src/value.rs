//! The tree of values that a text is read into, and its mathematical view.
use vstd::prelude::*;
use vstd::string::*;

verus! {

/// The mathematical value of a document tree.
pub enum Node {
    /// Text taken from the source as it stands.
    Scalar(Seq<char>),
    /// Text put together from several lines of the source.
    Text(Seq<char>),
    Int(int),
    /// A floating-point number, as it is written in the source.
    Float(Seq<char>),
    Bool(bool),
    Sequence(Seq<Node>),
    /// The entries in the order of the source; a key may occur more than once.
    Mapping(Seq<Pair>),
}

/// One entry of a mapping: a key and the value under it.
pub struct Pair {
    pub key: Node,
    pub value: Node,
}

/// A value of the language.
#[derive(Debug, PartialEq)]
pub enum Yaml<'a> {
    /// The text of a scalar, quoted or plain, borrowed from the source as it stands.
    Scalar(&'a str),
    /// The text of a block scalar, put together from its lines.
    String(String),
    /// A plain scalar that writes an integer of 64 bits.
    Int(i64),
    /// A plain scalar that writes a floating-point number, as it is written.
    Float(&'a str),
    /// A plain scalar that spells a truth value.
    Bool(bool),
    /// A sequence, in flow or in block style.
    Sequence(Vec<Yaml<'a>>),
    /// A mapping, in flow or in block style: its entries in the order of the source.
    /// A key may occur more than once, and may be any value.
    Mapping(Vec<Entry<'a>>),
}

/// One entry of a mapping.
#[derive(Debug, PartialEq)]
pub struct Entry<'a> {
    pub key: Yaml<'a>,
    pub value: Yaml<'a>,
}

impl<'a> View for Yaml<'a> {
    type V = Node;

    open spec fn view(&self) -> Node
        decreases self,
    {
        match self {
            Yaml::Scalar(s) => Node::Scalar(s@),
            Yaml::String(s) => Node::Text(s@),
            Yaml::Int(i) => Node::Int(*i as int),
            Yaml::Float(s) => Node::Float(s@),
            Yaml::Bool(b) => Node::Bool(*b),
            Yaml::Sequence(items) => Node::Sequence(
                Seq::new(
                    items@.len(),
                    |i: int|
                        if 0 <= i < items@.len() {
                            items@[i].view()
                        } else {
                            Node::Bool(false)
                        },
                ),
            ),
            Yaml::Mapping(entries) => Node::Mapping(
                Seq::new(
                    entries@.len(),
                    |i: int|
                        if 0 <= i < entries@.len() {
                            entries@[i].view()
                        } else {
                            Pair { key: Node::Bool(false), value: Node::Bool(false) }
                        },
                ),
            ),
        }
    }
}

impl<'a> View for Entry<'a> {
    type V = Pair;

    open spec fn view(&self) -> Pair
        decreases self,
    {
        Pair { key: self.key.view(), value: self.value.view() }
    }
}

impl<'a> Entry<'a> {
    pub fn new(key: Yaml<'a>, value: Yaml<'a>) -> (e: Self)
        ensures
            e.key == key,
            e.value == value,
    {
        Entry { key, value }
    }
}

/// A sequence of values, each taken by its view.
pub open spec fn items_view<'a>(items: Seq<Yaml<'a>>) -> Seq<Node> {
    Seq::new(items.len(), |i: int| items[i]@)
}

/// A sequence of entries, each taken as the pair of its key's and its value's view.
pub open spec fn entries_view<'a>(entries: Seq<Entry<'a>>) -> Seq<Pair> {
    Seq::new(entries.len(), |i: int| entries[i]@)
}

/// The view of a sequence is the sequence of its items' views.
pub proof fn sequence_view<'a>(items: Vec<Yaml<'a>>)
    ensures
        Yaml::Sequence(items)@ == Node::Sequence(items_view(items@)),
{
    let whole = Yaml::Sequence(items).view();
    assert(whole is Sequence);
    let s = whole->Sequence_0;
    assert(s.len() == items@.len());
    assert(s =~= items_view(items@));
}

/// The view of a mapping is the sequence of its entries' views.
pub proof fn mapping_view<'a>(entries: Vec<Entry<'a>>)
    ensures
        Yaml::Mapping(entries)@ == Node::Mapping(entries_view(entries@)),
{
    let whole = Yaml::Mapping(entries).view();
    assert(whole is Mapping);
    let s = whole->Mapping_0;
    assert(s.len() == entries@.len());
    assert(s =~= entries_view(entries@));
}

/// The view of an entry is the pair of its key's and its value's view.
pub proof fn entry_view<'a>(entry: Entry<'a>)
    ensures
        entry@.key == entry.key@,
        entry@.value == entry.value@,
{
}

/// The view of the entry at `i` is the pair of its key's and its value's view.
pub proof fn entry_at<'a>(entries: Seq<Entry<'a>>, i: int)
    requires
        0 <= i < entries.len(),
    ensures
        entries_view(entries)[i].key == entries[i].key@,
        entries_view(entries)[i].value == entries[i].value@,
{
    entry_view(entries[i]);
}

/// Appends an item to a sequence that is being built.
pub fn push_item<'a>(items: &mut Vec<Yaml<'a>>, item: Yaml<'a>)
    ensures
        items_view(final(items)@) == items_view(old(items)@).push(item@),
{
    items.push(item);
    assert(items_view(items@) =~= items_view(old(items)@).push(item@));
}

/// Appends an entry to a mapping that is being built.
pub fn push_entry<'a>(entries: &mut Vec<Entry<'a>>, key: Yaml<'a>, value: Yaml<'a>)
    ensures
        entries_view(final(entries)@) == entries_view(old(entries)@).push(
            Pair { key: key@, value: value@ },
        ),
{
    entries.push(Entry::new(key, value));
    assert(entries_view(entries@) =~= entries_view(old(entries)@).push(
        Pair { key: key@, value: value@ },
    ));
}

/// The sequence of `items`.
pub fn sequence_of<'a>(items: Vec<Yaml<'a>>) -> (y: Yaml<'a>)
    ensures
        y@ == Node::Sequence(items_view(items@)),
{
    proof {
        sequence_view(items);
    }
    Yaml::Sequence(items)
}

/// The mapping of `entries`.
pub fn mapping_of<'a>(entries: Vec<Entry<'a>>) -> (y: Yaml<'a>)
    ensures
        y@ == Node::Mapping(entries_view(entries@)),
{
    proof {
        mapping_view(entries);
    }
    Yaml::Mapping(entries)
}

impl<'a> Clone for Yaml<'a> {
    fn clone(&self) -> (r: Self)
        ensures
            r@ == self@,
        decreases self@,
    {
        match self {
            Yaml::Scalar(s) => Yaml::Scalar(*s),
            Yaml::String(s) => Yaml::String(s.clone()),
            Yaml::Int(i) => Yaml::Int(*i),
            Yaml::Float(s) => Yaml::Float(*s),
            Yaml::Bool(b) => Yaml::Bool(*b),
            Yaml::Sequence(items) => {
                proof {
                    sequence_view(*items);
                }
                let mut copy: Vec<Yaml<'a>> = Vec::new();
                let mut i: usize = 0;
                while i < items.len()
                    invariant
                        self@ == Node::Sequence(items_view(items@)),
                        i <= items@.len(),
                        copy@.len() == i,
                        forall|k: int| 0 <= k < i ==> copy@[k]@ == items@[k]@,
                    decreases items@.len() - i,
                {
                    proof {
                        let whole = Node::Sequence(items_view(items@));
                        assert(whole->Sequence_0[i as int] == items@[i as int]@);
                    }
                    let item = items[i].clone();
                    copy.push(item);
                    i = i + 1;
                }
                proof {
                    sequence_view(copy);
                    assert(items_view(copy@) =~= items_view(items@));
                }
                Yaml::Sequence(copy)
            },
            Yaml::Mapping(entries) => {
                proof {
                    mapping_view(*entries);
                }
                let mut copy: Vec<Entry<'a>> = Vec::new();
                let mut i: usize = 0;
                while i < entries.len()
                    invariant
                        self@ == Node::Mapping(entries_view(entries@)),
                        i <= entries@.len(),
                        copy@.len() == i,
                        forall|k: int| 0 <= k < i ==> copy@[k]@ == entries@[k]@,
                    decreases entries@.len() - i,
                {
                    proof {
                        let whole = Node::Mapping(entries_view(entries@));
                        entry_at(entries@, i as int);
                        assert(whole->Mapping_0[i as int].key == entries@[i as int].key@);
                        assert(whole->Mapping_0[i as int].value == entries@[i as int].value@);
                    }
                    let entry = Entry {
                        key: entries[i].key.clone(),
                        value: entries[i].value.clone(),
                    };
                    proof {
                        entry_view(entry);
                        entry_view(entries@[i as int]);
                    }
                    copy.push(entry);
                    i = i + 1;
                }
                proof {
                    mapping_view(copy);
                    assert(entries_view(copy@) =~= entries_view(entries@));
                }
                Yaml::Mapping(copy)
            },
        }
    }
}

impl<'a> Clone for Entry<'a> {
    fn clone(&self) -> (r: Self)
        ensures
            r@ == self@,
    {
        let r = Entry { key: self.key.clone(), value: self.value.clone() };
        proof {
            entry_view(r);
            entry_view(*self);
        }
        r
    }
}

} // verus!
