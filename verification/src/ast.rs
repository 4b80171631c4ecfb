//! The tree of values that a JSON text denotes.
use vstd::prelude::*;
use vstd::string::StringExecFns;
use crate::cursor::Cursor;
use crate::dsl::ToJson;
use crate::grammar::is_number_literal;
use crate::layout::{rendered, Mode};
use crate::object::{find, find_member, insert_member, keys_ascend, lemma_put_keeps, put};
use crate::parser::parse_number;
use crate::printer::json_to_string;

verus! {

/// A JSON value.
///
/// A number is held as its decimal literal, so that no precision is lost
/// and none is invented. An object holds its members in ascending order of
/// their keys, each key once.
#[derive(Debug, PartialEq)]
pub enum Json {
    Null,
    Boolean(bool),
    String(String),
    Number(String),
    Array(Vec<Json>),
    Object(Vec<(String, Json)>),
}

/// The mathematical value of a [`Json`]: strings are sequences of
/// characters, arrays and objects are sequences.
pub ghost enum JsonValue {
    Null,
    Boolean(bool),
    String(Seq<char>),
    Number(Seq<char>),
    Array(Seq<JsonValue>),
    Object(Seq<(Seq<char>, JsonValue)>),
}

/// The values of a sequence of items.
pub open spec fn items_view(items: Seq<Json>) -> Seq<JsonValue> {
    Seq::new(items.len(), |i: int| items[i]@)
}

/// The keys and values of a sequence of members.
pub open spec fn members_view(members: Seq<(String, Json)>) -> Seq<(Seq<char>, JsonValue)> {
    Seq::new(members.len(), |i: int| (members[i].0@, members[i].1@))
}

/// The value of an array is made of the values of its items, and that of an
/// object of the keys and values of its members.
pub broadcast proof fn lemma_view_of_containers(json: Json)
    ensures
        #![trigger json@]
        json matches Json::Array(items) ==> json@ == JsonValue::Array(items_view(items@)),
        json matches Json::Object(members) ==> json@ == JsonValue::Object(members_view(members@)),
{
    if json is Array {
        assert(json@->Array_0 =~= items_view(json->Array_0@));
    }
    if json is Object {
        assert(json@->Object_0 =~= members_view(json->Object_0@));
    }
}

impl View for Json {
    type V = JsonValue;

    open spec fn view(&self) -> JsonValue
        decreases self,
    {
        match self {
            Json::Null => JsonValue::Null,
            Json::Boolean(b) => JsonValue::Boolean(*b),
            Json::String(s) => JsonValue::String(s@),
            Json::Number(s) => JsonValue::Number(s@),
            Json::Array(items) => JsonValue::Array(
                Seq::new(
                    items@.len(),
                    |i: int|
                        if 0 <= i < items@.len() {
                            items@[i].view()
                        } else {
                            JsonValue::Null
                        },
                ),
            ),
            Json::Object(members) => JsonValue::Object(
                Seq::new(
                    members@.len(),
                    |i: int|
                        (
                            members@[i].0@,
                            if 0 <= i < members@.len() {
                                members@[i].1.view()
                            } else {
                                JsonValue::Null
                            },
                        ),
                ),
            ),
        }
    }
}

impl JsonValue {
    /// Arrays and objects are nested at most `room` deep in the value.
    pub open spec fn fits(self, room: nat) -> bool
        decreases self,
    {
        match self {
            JsonValue::Array(items) => room > 0 && forall|i: int|
                0 <= i < items.len() ==> (#[trigger] items[i]).fits((room - 1) as nat),
            JsonValue::Object(members) => room > 0 && forall|i: int|
                0 <= i < members.len() ==> (#[trigger] members[i]).1.fits((room - 1) as nat),
            _ => true,
        }
    }

    /// The value is one that a text can denote: every number is a number
    /// literal, and every object has its keys in strictly ascending order.
    pub open spec fn wf(self) -> bool
        decreases self,
    {
        match self {
            JsonValue::Number(literal) => is_number_literal(literal),
            JsonValue::Array(items) => forall|i: int|
                0 <= i < items.len() ==> (#[trigger] items[i]).wf(),
            JsonValue::Object(members) => {
                &&& keys_ascend(members)
                &&& forall|i: int| 0 <= i < members.len() ==> (#[trigger] members[i]).1.wf()
            },
            _ => true,
        }
    }
}

impl Json {
    /// An object without members.
    pub fn object() -> (r: Json)
        ensures
            r@ == JsonValue::Object(Seq::empty()),
            r@.wf(),
    {
        let r = Json::Object(Vec::new());
        proof {
            lemma_view_of_containers(r);
            assert(r@->Object_0 =~= Seq::empty());
        }
        r
    }

    /// The number with the given literal; `None` where the text is no number
    /// literal.
    pub fn number(literal: &str) -> (r: Option<Json>)
        ensures
            match r {
                Some(json) => is_number_literal(literal@) && json@ == JsonValue::Number(literal@),
                None => !is_number_literal(literal@),
            },
    {
        let mut rest = Cursor::new(literal);
        match parse_number(&mut rest) {
            Ok(json) => {
                if rest.count() == 0 {
                    assert(literal@.subrange(0, literal@.len() as int) =~= literal@);
                    Some(json)
                } else {
                    None
                }
            },
            Err(_) => None,
        }
    }

    /// The value of the member with the key `property`, if this is an
    /// object that has one.
    pub fn get(&self, property: &str) -> (r: Option<&Json>)
        ensures
            match self@ {
                JsonValue::Object(members) => match r {
                    Some(value) => find(members, property@) == Some(value@),
                    None => find(members, property@) is None,
                },
                _ => r is None,
            },
    {
        proof {
            lemma_view_of_containers(*self);
        }
        match self {
            Json::Object(properties) => find_member(properties, property),
            _ => None,
        }
    }

    /// This object with `property` bound to `value`: in the place of the
    /// member that had the key, or else where the order of keys wants it.
    /// Any other value is returned as it is.
    pub fn set<V: ToJson>(self, property: &str, value: V) -> (r: Json)
        requires
            self@ matches JsonValue::Object(members) ==> keys_ascend(members),
        ensures
            r@ == match self@ {
                JsonValue::Object(members) => JsonValue::Object(
                    put(members, property@, value.json()),
                ),
                other => other,
            },
            !(self is Object) ==> r == self,
            self@.wf() && value.json().wf() ==> r@.wf(),
    {
        proof {
            lemma_view_of_containers(self);
        }
        match self {
            Json::Object(mut properties) => {
                proof {
                    if self@.wf() && value.json().wf() {
                        lemma_put_keeps(
                            members_view(properties@),
                            property@,
                            value.json(),
                            |v: JsonValue| v.wf(),
                        );
                    }
                }
                insert_member(&mut properties, String::from_str(property), value.to_json());
                let r = Json::Object(properties);
                proof {
                    lemma_view_of_containers(r);
                }
                r
            },
            other => other,
        }
    }

    /// The text of the value, one item or member per line, indented by two
    /// spaces for each nesting level.
    pub fn to_string(&self) -> (r: String)
        ensures
            r@ == rendered(self@, Mode::Pretty(2), 0),
    {
        json_to_string(self, 2)
    }
}

/// Copies of the items, with the same values.
fn clone_items(items: &Vec<Json>) -> (r: Vec<Json>)
    ensures
        items_view(r@) == items_view(items@),
    decreases items, 0nat,
{
    let mut copy: Vec<Json> = Vec::new();
    let mut index: usize = 0;
    while index < items.len()
        invariant
            index <= items.len(),
            copy.len() == index,
            items_view(copy@) == items_view(items@).take(index as int),
        decreases items.len() - index,
    {
        let item = items[index].clone();
        copy.push(item);
        index = index + 1;
        assert(items_view(copy@) =~= items_view(items@).take(index as int));
    }
    assert(items_view(copy@) =~= items_view(items@));
    copy
}

/// Copies of the members, with the same keys and values.
fn clone_members(members: &Vec<(String, Json)>) -> (r: Vec<(String, Json)>)
    ensures
        members_view(r@) == members_view(members@),
    decreases members, 0nat,
{
    let mut copy: Vec<(String, Json)> = Vec::new();
    let mut index: usize = 0;
    while index < members.len()
        invariant
            index <= members.len(),
            copy.len() == index,
            members_view(copy@) == members_view(members@).take(index as int),
        decreases members.len() - index,
    {
        let key = members[index].0.clone();
        let value = members[index].1.clone();
        copy.push((key, value));
        index = index + 1;
        assert(members_view(copy@) =~= members_view(members@).take(index as int));
    }
    assert(members_view(copy@) =~= members_view(members@));
    copy
}

impl Clone for Json {
    /// A copy with the same value.
    fn clone(&self) -> (r: Json)
        ensures
            r@ == self@,
        decreases self, 1nat,
    {
        proof {
            lemma_view_of_containers(*self);
        }
        let r = match self {
            Json::Null => Json::Null,
            Json::Boolean(b) => Json::Boolean(*b),
            Json::String(s) => Json::String(s.clone()),
            Json::Number(s) => Json::Number(s.clone()),
            Json::Array(items) => Json::Array(clone_items(items)),
            Json::Object(members) => Json::Object(clone_members(members)),
        };
        proof {
            lemma_view_of_containers(r);
        }
        r
    }
}

} // verus!
