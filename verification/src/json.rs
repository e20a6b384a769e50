//! Values as JSON documents. Objects are put together with the ordered map of
//! `serde_json`, which says where each member stands, and the text of a document is
//! what `serde_json` writes for it.
use crate::decimal::{push_signed_decimal, signed_decimal};
use crate::print::count;
use crate::value::{entries_view, entry_at, items_view, mapping_view, sequence_view, Entry, Node, Yaml};
use vstd::prelude::*;
use vstd::string::*;

verus! {

/// The mathematical value of a JSON document.
pub enum JsonNode {
    Text(Seq<char>),
    Int(int),
    /// A floating-point number, as it was written.
    Float(Seq<char>),
    Bool(bool),
    Array(Seq<JsonNode>),
    Object(Seq<MemberNode>),
}

/// One member of an object: a name and the value under it.
pub struct MemberNode {
    pub name: Seq<char>,
    pub value: JsonNode,
}

/// A JSON document. An object keeps its members in order, each name once.
#[derive(Debug, PartialEq)]
pub enum Json {
    String(String),
    Int(i64),
    /// A floating-point number, as it was written.
    Float(String),
    Bool(bool),
    Array(Vec<Json>),
    Object(Vec<Member>),
}

/// One member of an object.
#[derive(Debug, PartialEq)]
pub struct Member {
    pub name: String,
    pub value: Json,
}

impl View for Json {
    type V = JsonNode;

    open spec fn view(&self) -> JsonNode
        decreases self,
    {
        match self {
            Json::String(s) => JsonNode::Text(s@),
            Json::Int(i) => JsonNode::Int(*i as int),
            Json::Float(s) => JsonNode::Float(s@),
            Json::Bool(b) => JsonNode::Bool(*b),
            Json::Array(items) => JsonNode::Array(
                Seq::new(
                    items@.len(),
                    |i: int|
                        if 0 <= i < items@.len() {
                            items@[i].view()
                        } else {
                            JsonNode::Bool(false)
                        },
                ),
            ),
            Json::Object(members) => JsonNode::Object(
                Seq::new(
                    members@.len(),
                    |i: int|
                        if 0 <= i < members@.len() {
                            members@[i].view()
                        } else {
                            MemberNode { name: Seq::empty(), value: JsonNode::Bool(false) }
                        },
                ),
            ),
        }
    }
}

impl View for Member {
    type V = MemberNode;

    open spec fn view(&self) -> MemberNode
        decreases self,
    {
        MemberNode { name: self.name@, value: self.value.view() }
    }
}

/// A sequence of documents, each taken by its view.
pub open spec fn array_view(items: Seq<Json>) -> Seq<JsonNode> {
    Seq::new(items.len(), |i: int| items[i]@)
}

/// A sequence of members, each taken by its view.
pub open spec fn members_view(members: Seq<Member>) -> Seq<MemberNode> {
    Seq::new(members.len(), |i: int| members[i]@)
}

/// The view of an array is the sequence of its items' views.
pub proof fn array_is(items: Vec<Json>)
    ensures
        Json::Array(items)@ == JsonNode::Array(array_view(items@)),
{
    assert(Json::Array(items)@ matches JsonNode::Array(s) && s =~= array_view(items@));
}

/// The view of an object is the sequence of its members' views.
pub proof fn object_is(members: Vec<Member>)
    ensures
        Json::Object(members)@ == JsonNode::Object(members_view(members@)),
{
    assert(Json::Object(members)@ matches JsonNode::Object(s) && s =~= members_view(members@));
}

/// The members with `value` under `name`: in the place of the member of that name,
/// where there is one, and behind all members otherwise.
pub open spec fn with_member(members: Seq<MemberNode>, name: Seq<char>, value: JsonNode) -> Seq<
    MemberNode,
>
    decreases members.len(),
{
    if members.len() == 0 {
        seq![MemberNode { name, value }]
    } else if members[0].name == name {
        seq![MemberNode { name, value }] + members.skip(1)
    } else {
        seq![members[0]] + with_member(members.skip(1), name, value)
    }
}

impl Json {
    /// A copy of the document.
    pub fn duplicate(&self) -> (r: Json)
        ensures
            r@ == self@,
        decreases self@,
    {
        match self {
            Json::String(s) => Json::String(s.clone()),
            Json::Int(i) => Json::Int(*i),
            Json::Float(s) => Json::Float(s.clone()),
            Json::Bool(b) => Json::Bool(*b),
            Json::Array(items) => {
                proof {
                    array_is(*items);
                }
                let mut copy: Vec<Json> = Vec::new();
                let mut i: usize = 0;
                while i < items.len()
                    invariant
                        self@ == JsonNode::Array(array_view(items@)),
                        i <= items@.len(),
                        copy@.len() == i,
                        forall|k: int| 0 <= k < i ==> copy@[k]@ == items@[k]@,
                    decreases items@.len() - i,
                {
                    proof {
                        let whole = JsonNode::Array(array_view(items@));
                        assert(whole->Array_0[i as int] == items@[i as int]@);
                    }
                    let item = items[i].duplicate();
                    copy.push(item);
                    i = i + 1;
                }
                proof {
                    array_is(*items);
                    array_is(copy);
                    assert(array_view(copy@) =~= array_view(items@));
                }
                Json::Array(copy)
            },
            Json::Object(members) => {
                proof {
                    object_is(*members);
                }
                let mut copy: Vec<Member> = Vec::new();
                let mut i: usize = 0;
                while i < members.len()
                    invariant
                        self@ == JsonNode::Object(members_view(members@)),
                        i <= members@.len(),
                        copy@.len() == i,
                        forall|k: int| 0 <= k < i ==> copy@[k]@ == members@[k]@,
                    decreases members@.len() - i,
                {
                    proof {
                        let whole = JsonNode::Object(members_view(members@));
                        assert(whole->Object_0[i as int].value == members@[i as int].value@);
                    }
                    let member = Member {
                        name: members[i].name.clone(),
                        value: members[i].value.duplicate(),
                    };
                    copy.push(member);
                    i = i + 1;
                }
                proof {
                    object_is(*members);
                    object_is(copy);
                    assert(members_view(copy@) =~= members_view(members@));
                }
                Json::Object(copy)
            },
        }
    }
}

/// `serde_json::Map`, the map that `serde_json` keeps the members of an object in.
#[verifier::external_type_specification]
#[verifier::external_body]
#[verifier::reject_recursive_types(K)]
#[verifier::reject_recursive_types(V)]
pub struct ExMap<K, V>(serde_json::Map<K, V>);

/// `serde_json::Value`, a JSON document of `serde_json`.
#[verifier::external_type_specification]
#[verifier::external_body]
pub struct ExValue(serde_json::Value);

/// What a map of `serde_json` holds: its names in the order of the map, each with the
/// whole number that is its value. A value that is no such number counts as 0.
pub uninterp spec fn slots(map: serde_json::Map<String, serde_json::Value>) -> Seq<
    (Seq<char>, u64),
>;

/// A string as JSON writes it, between quotes and with what JSON escapes escaped.
pub uninterp spec fn quoted(text: Seq<char>) -> Seq<char>;

/// The names and numbers with `slot` under `name`: in the place of the entry of that
/// name, where there is one, and behind all entries otherwise.
pub open spec fn inserted(entries: Seq<(Seq<char>, u64)>, name: Seq<char>, slot: u64) -> Seq<
    (Seq<char>, u64),
>
    decreases entries.len(),
{
    if entries.len() == 0 {
        seq![(name, slot)]
    } else if entries[0].0 == name {
        seq![(name, slot)] + entries.skip(1)
    } else {
        seq![entries[0]] + inserted(entries.skip(1), name, slot)
    }
}

/// `serde_json::Map::new`: a map that holds nothing.
#[verifier::external_body]
fn map_new() -> (map: serde_json::Map<String, serde_json::Value>)
    ensures
        slots(map) == Seq::<(Seq<char>, u64)>::empty(),
{
    serde_json::Map::new()
}

/// `serde_json::Map::insert` with a whole number as the value, where `serde_json` is
/// built to keep the order of insertion: a name that the map holds keeps its place and
/// gets the new number, any other name is added behind all others.
#[verifier::external_body]
fn map_insert(map: &mut serde_json::Map<String, serde_json::Value>, name: String, slot: u64)
    ensures
        slots(*final(map)) == inserted(slots(*old(map)), name@, slot),
{
    map.insert(name, serde_json::Value::from(slot));
}

/// `serde_json::Map::iter`, with `serde_json::Value::as_u64` on each value: the names
/// and numbers of the map in its order.
#[verifier::external_body]
fn map_entries(map: &serde_json::Map<String, serde_json::Value>) -> (entries: Vec<(String, u64)>)
    ensures
        entries@.len() == slots(*map).len(),
        forall|i: int|
            0 <= i < entries@.len() ==> (#[trigger] entries@[i]).0@ == slots(*map)[i].0
                && entries@[i].1 == slots(*map)[i].1,
{
    map.iter().map(|(name, slot)| (name.clone(), slot.as_u64().unwrap_or_default())).collect()
}

/// The `Display` of `serde_json::Value` on a string: the string as JSON writes it.
#[verifier::external_body]
fn quote(text: &str) -> (r: String)
    ensures
        r@ == quoted(text@),
{
    serde_json::Value::String(text.to_owned()).to_string()
}

/// The members that names with numbers stand for, where each number is a place in
/// `values`.
pub open spec fn members_of(entries: Seq<(Seq<char>, u64)>, values: Seq<JsonNode>) -> Seq<
    MemberNode,
> {
    Seq::new(
        entries.len(),
        |i: int| MemberNode { name: entries[i].0, value: values[entries[i].1 as int] },
    )
}

/// Every number is a place in a sequence of `len` values.
pub open spec fn in_range(entries: Seq<(Seq<char>, u64)>, len: int) -> bool {
    forall|i: int| 0 <= i < entries.len() ==> (#[trigger] entries[i]).1 < len
}

/// To put a number under a name and then take the members is to take the members and
/// then put the value under the name.
pub proof fn inserted_members(
    entries: Seq<(Seq<char>, u64)>,
    values: Seq<JsonNode>,
    name: Seq<char>,
    value: JsonNode,
)
    requires
        in_range(entries, values.len() as int),
        values.len() <= u64::MAX,
    ensures
        in_range(inserted(entries, name, values.len() as u64), values.len() as int + 1),
        members_of(inserted(entries, name, values.len() as u64), values.push(value))
            == with_member(members_of(entries, values), name, value),
    decreases entries.len(),
{
    let slot = values.len() as u64;
    let more = values.push(value);
    let left = members_of(inserted(entries, name, slot), more);
    let right = with_member(members_of(entries, values), name, value);
    if entries.len() == 0 {
        assert(left =~= right);
    } else {
        let rest = entries.skip(1);
        assert(in_range(rest, values.len() as int)) by {
            assert forall|i: int| 0 <= i < rest.len() implies (#[trigger] rest[i]).1
                < values.len() by {
                assert(rest[i] == entries[i + 1]);
            }
        }
        assert(members_of(entries, values).skip(1) =~= members_of(rest, values));
        assert(entries[0].1 < values.len());
        if entries[0].0 == name {
            assert(left =~= right) by {
                assert forall|i: int| 0 <= i < left.len() implies left[i] == right[i] by {
                    if i > 0 {
                        assert(entries[i].1 < values.len());
                    }
                }
            }
            assert forall|i: int|
                0 <= i < inserted(entries, name, slot).len() implies (#[trigger] inserted(
                entries,
                name,
                slot,
            )[i]).1 < values.len() + 1 by {
                if i > 0 {
                    assert(entries[i].1 < values.len());
                }
            }
        } else {
            inserted_members(rest, values, name, value);
            let tail = inserted(rest, name, slot);
            assert(inserted(entries, name, slot) =~= seq![entries[0]] + tail);
            assert(left =~= seq![members_of(entries, values)[0]] + members_of(tail, more));
            assert forall|i: int|
                0 <= i < inserted(entries, name, slot).len() implies (#[trigger] inserted(
                entries,
                name,
                slot,
            )[i]).1 < values.len() + 1 by {
                if i > 0 {
                    assert(inserted(entries, name, slot)[i] == tail[i - 1]);
                }
            }
        }
    }
}

/// An object that is being put together, member by member.
pub struct ObjectBuilder {
    pub order: serde_json::Map<String, serde_json::Value>,
    pub values: Vec<Json>,
}

impl View for ObjectBuilder {
    type V = Seq<MemberNode>;

    /// The members put together so far.
    open spec fn view(&self) -> Seq<MemberNode> {
        members_of(slots(self.order), array_view(self.values@))
    }
}

impl ObjectBuilder {
    /// Every name stands for a value that is held.
    pub open spec fn wf(&self) -> bool {
        in_range(slots(self.order), self.values@.len() as int)
    }

    /// An object without members.
    pub fn new() -> (b: Self)
        ensures
            b.wf(),
            b@ == Seq::<MemberNode>::empty(),
    {
        let b = ObjectBuilder { order: map_new(), values: Vec::new() };
        assert(b@ =~= Seq::<MemberNode>::empty());
        b
    }

    /// Puts `value` under `name`: in the place of the member of that name, where there
    /// is one, and behind all members otherwise.
    pub fn insert(&mut self, name: String, value: Json)
        requires
            old(self).wf(),
        ensures
            final(self).wf(),
            final(self)@ == with_member(old(self)@, name@, value@),
    {
        let slot: usize = self.values.len();
        proof {
            inserted_members(slots(self.order), array_view(self.values@), name@, value@);
            assert(array_view(self.values@.push(value)) =~= array_view(self.values@).push(value@));
        }
        self.values.push(value);
        map_insert(&mut self.order, name, slot as u64);
    }

    /// The members put together.
    pub fn members(&self) -> (r: Vec<Member>)
        requires
            self.wf(),
        ensures
            members_view(r@) == self@,
    {
        let entries = map_entries(&self.order);
        let mut r: Vec<Member> = Vec::new();
        let mut i: usize = 0;
        while i < entries.len()
            invariant
                self.wf(),
                entries@.len() == slots(self.order).len(),
                forall|k: int|
                    0 <= k < entries@.len() ==> (#[trigger] entries@[k]).0@ == slots(
                        self.order,
                    )[k].0 && entries@[k].1 == slots(self.order)[k].1,
                i <= entries@.len(),
                r@.len() == i,
                forall|k: int| 0 <= k < i ==> (#[trigger] r@[k])@ == self@[k],
            decreases entries@.len() - i,
        {
            let slot: u64 = entries[i].1;
            assert(slots(self.order)[i as int].1 < self.values@.len());
            let held: usize = self.values.len();
            assert(slot < held);
            let place: usize = slot as usize;
            assert(place == slot);
            let value = self.values[place].duplicate();
            assert(value@ == array_view(self.values@)[slot as int]);
            let member = Member { name: entries[i].0.clone(), value };
            proof {
                assert(member@.name == slots(self.order)[i as int].0);
                assert(member@.value == value@);
                assert(member@ == self@[i as int]);
            }
            r.push(member);
            i = i + 1;
        }
        assert(members_view(r@) =~= self@);
        r
    }

    /// The object put together.
    pub fn finish(&self) -> (j: Json)
        requires
            self.wf(),
        ensures
            j@ == JsonNode::Object(self@),
    {
        let members = self.members();
        proof {
            object_is(members);
        }
        Json::Object(members)
    }
}

/// An array as `serde_json` writes it, where `items` are its items as `serde_json`
/// writes them.
pub uninterp spec fn arrayed(items: Seq<Seq<char>>) -> Seq<char>;

/// An object as `serde_json` writes it, where `names` are the names of its members
/// and `values` their values as `serde_json` writes them.
pub uninterp spec fn objected(names: Seq<Seq<char>>, values: Seq<Seq<char>>) -> Seq<char>;

/// A sequence of strings, each taken by its view.
pub open spec fn texts(strings: Seq<String>) -> Seq<Seq<char>> {
    Seq::new(strings.len(), |i: int| strings[i]@)
}

/// `serde_json::Value::from` on an integer and the `Display` of the outcome: the
/// integer in decimal.
#[verifier::external_body]
fn int_text(i: i64) -> (r: String)
    ensures
        r@ == signed_decimal(i as int),
{
    serde_json::Value::from(i).to_string()
}

/// The `Display` of `serde_json::Value::Array`, on the items that
/// `serde_json::from_str` reads from `items`.
#[verifier::external_body]
fn array_text(items: &Vec<String>) -> (r: String)
    ensures
        r@ == arrayed(texts(items@)),
{
    let read = items.iter().map(|t| serde_json::from_str(t).unwrap_or_default());
    serde_json::Value::Array(read.collect()).to_string()
}

/// The `Display` of `serde_json::Value::Object`, on the members that have the names
/// `names` and the values that `serde_json::from_str` reads from `values`.
#[verifier::external_body]
fn object_text(names: &Vec<String>, values: &Vec<String>) -> (r: String)
    ensures
        r@ == objected(texts(names@), texts(values@)),
{
    let read = values.iter().map(|t| serde_json::from_str(t).unwrap_or_default());
    serde_json::Value::Object(names.iter().cloned().zip(read).collect()).to_string()
}

/// A document as the JSON text that `serde_json` writes for it. A floating-point
/// number that stands alone is written as it was written.
pub open spec fn json_text(j: JsonNode) -> Seq<char>
    decreases j, 1nat,
{
    match j {
        JsonNode::Text(t) => quoted(t),
        JsonNode::Int(i) => signed_decimal(i),
        JsonNode::Float(t) => t,
        JsonNode::Bool(b) => if b {
            "true"@
        } else {
            "false"@
        },
        JsonNode::Array(_) => arrayed(parts_text(j)),
        JsonNode::Object(members) => objected(
            Seq::new(members.len(), |i: int| members[i].name),
            parts_text(j),
        ),
    }
}

/// The JSON texts of the items of an array, or of the values of the members of an
/// object.
pub open spec fn parts_text(parent: JsonNode) -> Seq<Seq<char>>
    decreases parent, 0nat,
{
    match parent {
        JsonNode::Array(items) => Seq::new(
            items.len(),
            |i: int|
                if 0 <= i < items.len() {
                    json_text(items[i])
                } else {
                    Seq::empty()
                },
        ),
        JsonNode::Object(members) => Seq::new(
            members.len(),
            |i: int|
                if 0 <= i < members.len() {
                    json_text(members[i].value)
                } else {
                    Seq::empty()
                },
        ),
        _ => Seq::empty(),
    }
}

/// The name that a key gives a member: the text of a scalar read from the source, a
/// number or a truth value as it is written, and any other key as the JSON text of its
/// projection.
pub open spec fn key_text(key: Node) -> Seq<char>
    decreases key, count(key) + 2,
{
    match key {
        Node::Scalar(t) => t,
        Node::Int(i) => signed_decimal(i),
        Node::Float(t) => t,
        Node::Bool(b) => if b {
            "true"@
        } else {
            "false"@
        },
        _ => json_text(projected(key)),
    }
}

/// A value as a JSON document: text as a string, a number or a truth value as itself,
/// a sequence as an array, a mapping as an object.
pub open spec fn projected(node: Node) -> JsonNode
    decreases node, count(node) + 1,
{
    match node {
        Node::Scalar(t) => JsonNode::Text(t),
        Node::Text(t) => JsonNode::Text(t),
        Node::Int(i) => JsonNode::Int(i),
        Node::Float(t) => JsonNode::Float(t),
        Node::Bool(b) => JsonNode::Bool(b),
        Node::Sequence(items) => JsonNode::Array(
            Seq::new(
                items.len(),
                |i: int|
                    if 0 <= i < items.len() {
                        projected(items[i])
                    } else {
                        JsonNode::Bool(false)
                    },
            ),
        ),
        Node::Mapping(entries) => JsonNode::Object(object_from(node, entries.len() as int)),
    }
}

/// The members that the first `n` entries of the mapping `parent` give: each entry is
/// put under the name that its key gives, in the order of the entries, so that of two
/// entries with one name the first gives the place and the last the value.
pub open spec fn object_from(parent: Node, n: int) -> Seq<MemberNode>
    decreases parent, n,
{
    match parent {
        Node::Mapping(entries) => if 0 < n <= entries.len() {
            with_member(
                object_from(parent, n - 1),
                key_text(entries[n - 1].key),
                projected(entries[n - 1].value),
            )
        } else {
            Seq::empty()
        },
        _ => Seq::empty(),
    }
}

impl Json {
    /// The document as the JSON text that `serde_json` writes for it.
    pub fn to_string(&self) -> (s: String)
        ensures
            s@ == json_text(self@),
        decreases self@,
    {
        match self {
            Json::String(text) => quote(text.as_str()),
            Json::Int(i) => int_text(*i),
            Json::Float(text) => text.clone(),
            Json::Bool(b) => if *b {
                String::from_str("true")
            } else {
                String::from_str("false")
            },
            Json::Array(items) => {
                proof {
                    array_is(*items);
                }
                let mut written: Vec<String> = Vec::new();
                let mut i: usize = 0;
                while i < items.len()
                    invariant
                        self@ == JsonNode::Array(array_view(items@)),
                        i <= items@.len(),
                        written@.len() == i,
                        forall|k: int| 0 <= k < i ==> (#[trigger] written@[k])@ == json_text(items@[k]@),
                    decreases items@.len() - i,
                {
                    proof {
                        let whole = JsonNode::Array(array_view(items@));
                        assert(whole->Array_0[i as int] == items@[i as int]@);
                    }
                    let text = items[i].to_string();
                    written.push(text);
                    i = i + 1;
                }
                assert(texts(written@) =~= parts_text(self@));
                array_text(&written)
            },
            Json::Object(members) => {
                proof {
                    object_is(*members);
                }
                let mut names: Vec<String> = Vec::new();
                let mut written: Vec<String> = Vec::new();
                let mut i: usize = 0;
                while i < members.len()
                    invariant
                        self@ == JsonNode::Object(members_view(members@)),
                        i <= members@.len(),
                        written@.len() == i,
                        names@.len() == i,
                        forall|k: int|
                            0 <= k < i ==> (#[trigger] written@[k])@ == json_text(
                                members@[k].value@,
                            ),
                        forall|k: int| 0 <= k < i ==> (#[trigger] names@[k])@ == members@[k].name@,
                    decreases members@.len() - i,
                {
                    proof {
                        let whole = JsonNode::Object(members_view(members@));
                        assert(whole->Object_0[i as int].value == members@[i as int].value@);
                    }
                    let text = members[i].value.to_string();
                    written.push(text);
                    names.push(members[i].name.clone());
                    i = i + 1;
                }
                proof {
                    let all = members_view(members@);
                    assert forall|k: int| 0 <= k < all.len() implies all[k].name
                        == members@[k].name@ && all[k].value == members@[k].value@ by {
                        assert(all[k] == members@[k]@);
                    }
                    assert(texts(names@) =~= Seq::new(all.len(), |i: int| all[i].name));
                    assert(texts(written@) =~= parts_text(self@));
                }
                object_text(&names, &written)
            },
        }
    }
}

/// The name that a key gives a member.
pub fn key_string(key: &Yaml<'_>) -> (r: String)
    ensures
        r@ == key_text(key@),
    decreases key@, count(key@) + 2,
{
    match key {
        Yaml::Scalar(s) => String::from_str(s),
        Yaml::Int(i) => {
            let mut out = String::new();
            push_signed_decimal(&mut out, *i);
            assert(out@ =~= signed_decimal(*i as int));
            out
        },
        Yaml::Float(s) => String::from_str(s),
        Yaml::Bool(b) => if *b {
            String::from_str("true")
        } else {
            String::from_str("false")
        },
        other => {
            proof {
                match other {
                    Yaml::Sequence(items) => sequence_view(*items),
                    Yaml::Mapping(entries) => mapping_view(*entries),
                    _ => {},
                }
            }
            other.to_json().to_string()
        },
    }
}

/// The members that the entries of a mapping give, before they are made an object.
pub fn object_builder(entries: &Vec<Entry<'_>>) -> (b: ObjectBuilder)
    ensures
        b.wf(),
        b@ == object_from(Node::Mapping(entries_view(entries@)), entries@.len() as int),
    decreases Node::Mapping(entries_view(entries@)), entries@.len(),
{
    let ghost parent = Node::Mapping(entries_view(entries@));
    let mut b = ObjectBuilder::new();
    let mut i: usize = 0;
    while i < entries.len()
        invariant
            parent == Node::Mapping(entries_view(entries@)),
            i <= entries@.len(),
            b.wf(),
            b@ == object_from(parent, i as int),
        decreases entries@.len() - i,
    {
        proof {
            entry_at(entries@, i as int);
            assert(parent->Mapping_0[i as int].key == entries@[i as int].key@);
            assert(parent->Mapping_0[i as int].value == entries@[i as int].value@);
        }
        let name = key_string(&entries[i].key);
        let value = entries[i].value.to_json();
        b.insert(name, value);
        i = i + 1;
    }
    b
}

impl<'a> Yaml<'a> {
    /// The value as a JSON document.
    pub fn to_json(&self) -> (j: Json)
        ensures
            j@ == projected(self@),
        decreases self@, count(self@) + 1,
    {
        match self {
            Yaml::Scalar(s) => Json::String(String::from_str(s)),
            Yaml::String(s) => Json::String(s.clone()),
            Yaml::Int(i) => Json::Int(*i),
            Yaml::Float(s) => Json::Float(String::from_str(s)),
            Yaml::Bool(b) => Json::Bool(*b),
            Yaml::Sequence(seq) => {
                proof {
                    sequence_view(*seq);
                }
                let mut items: Vec<Json> = Vec::new();
                let mut i: usize = 0;
                while i < seq.len()
                    invariant
                        self@ == Node::Sequence(items_view(seq@)),
                        i <= seq@.len(),
                        items@.len() == i,
                        forall|k: int| 0 <= k < i ==> (#[trigger] items@[k])@ == projected(seq@[k]@),
                    decreases seq@.len() - i,
                {
                    proof {
                        let whole = Node::Sequence(items_view(seq@));
                        assert(whole->Sequence_0[i as int] == seq@[i as int]@);
                    }
                    let item = seq[i].to_json();
                    items.push(item);
                    i = i + 1;
                }
                proof {
                    array_is(items);
                    assert(projected(self@) matches JsonNode::Array(all) && all =~= array_view(
                        items@,
                    ));
                }
                Json::Array(items)
            },
            Yaml::Mapping(entries) => {
                proof {
                    mapping_view(*entries);
                }
                object_builder(entries).finish()
            },
        }
    }
}

impl Clone for Json {
    fn clone(&self) -> (r: Self)
        ensures
            r@ == self@,
    {
        self.duplicate()
    }
}

impl Clone for Member {
    fn clone(&self) -> (r: Self)
        ensures
            r@ == self@,
    {
        Member { name: self.name.clone(), value: self.value.duplicate() }
    }
}

} // verus!
