//! JSON texts: objects, lists and texts.

use crate::text::{str_eq, text_of, texts};
use serde_json::Value;
use vstd::prelude::*;

verus! {

/// A JSON value: an object with the texts of its members, a list with the texts of its
/// items, a text, or anything else.
pub enum JsonValue {
    Object(Vec<(String, String)>),
    List(Vec<String>),
    Text(String),
    Other,
}

/// A JSON value, as a value.
pub enum JsonItem {
    Object(Seq<(Seq<char>, Seq<char>)>),
    List(Seq<Seq<char>>),
    Text(Seq<char>),
    Other,
}

impl View for JsonValue {
    type V = JsonItem;

    open spec fn view(&self) -> JsonItem {
        match *self {
            JsonValue::Object(members) => JsonItem::Object(
                members@.map_values(|m: (String, String)| (m.0@, m.1@)),
            ),
            JsonValue::List(items) => JsonItem::List(texts(items@)),
            JsonValue::Text(text) => JsonItem::Text(text@),
            JsonValue::Other => JsonItem::Other,
        }
    }
}

/// What `serde_json` reads from a text. A text that it cannot read is anything else.
pub uninterp spec fn json_item(text: Seq<char>) -> JsonItem;

/// Calls `serde_json::from_str`, and writes each member of an object and each item of a list
/// as the crate does. The result is named `json_item`.
#[verifier::external_body]
pub(crate) fn read_json(text: &str) -> (v: JsonValue)
    ensures
        v@ == json_item(text@),
{
    match serde_json::from_str::<Value>(text) {
        Ok(Value::Object(members)) => JsonValue::Object(
            members.into_iter().map(|(name, value)| (name, value.to_string())).collect(),
        ),
        Ok(Value::Array(items)) => JsonValue::List(
            items.into_iter().map(|value| value.to_string()).collect(),
        ),
        Ok(Value::String(text)) => JsonValue::Text(text),
        _ => JsonValue::Other,
    }
}

/// The text of the first of `members` with a name.
pub open spec fn first_member(members: Seq<(Seq<char>, Seq<char>)>, name: Seq<char>) -> Option<
    Seq<char>,
>
    decreases members.len(),
{
    if members.len() == 0 {
        None
    } else if members[0].0 == name {
        Some(members[0].1)
    } else {
        first_member(members.drop_first(), name)
    }
}

/// The text of a member of a JSON object.
pub open spec fn member_of(item: JsonItem, name: Seq<char>) -> Option<Seq<char>> {
    match item {
        JsonItem::Object(members) => first_member(members, name),
        _ => None,
    }
}

/// The text of a member of a JSON object.
pub fn json_member(value: &JsonValue, name: &str) -> (member: Option<String>)
    ensures
        text_of(member) == member_of(value@, name@),
{
    match value {
        JsonValue::Object(members) => {
            let ghost all = members@.map_values(|m: (String, String)| (m.0@, m.1@));
            assert(all.skip(0) =~= all);
            for i in 0..members.len()
                invariant
                    all == members@.map_values(|m: (String, String)| (m.0@, m.1@)),
                    value@ == JsonItem::Object(all),
                    first_member(all, name@) == first_member(all.skip(i as int), name@),
            {
                assert(all.skip(i as int)[0] == (members@[i as int].0@, members@[i as int].1@));
                assert(all.skip(i as int).drop_first() =~= all.skip(i + 1));
                if str_eq(members[i].0.as_str(), name) {
                    return Some(members[i].1.as_str().to_owned());
                }
            }
            None
        },
        _ => None,
    }
}

/// The text of a member of the JSON object with a text.
pub open spec fn json_at(text: Option<Seq<char>>, name: Seq<char>) -> Option<Seq<char>> {
    match text {
        Some(t) => member_of(json_item(t), name),
        None => None,
    }
}

/// The text of a member of the JSON object with a text.
pub fn member_at(text: Option<String>, name: &str) -> (member: Option<String>)
    ensures
        text_of(member) == json_at(text_of(text), name@),
{
    match text {
        Some(t) => json_member(&read_json(t.as_str()), name),
        None => None,
    }
}

/// The text that a JSON text stands for.
pub open spec fn json_text(text: Option<Seq<char>>) -> Option<Seq<char>> {
    match text {
        Some(t) => match json_item(t) {
            JsonItem::Text(s) => Some(s),
            _ => None,
        },
        None => None,
    }
}

/// The text that a JSON text stands for.
pub fn text_value(text: Option<String>) -> (value: Option<String>)
    ensures
        text_of(value) == json_text(text_of(text)),
{
    match text {
        Some(t) => match read_json(t.as_str()) {
            JsonValue::Text(s) => Some(s),
            _ => None,
        },
        None => None,
    }
}

proof fn lemma_first_member(members: Seq<(Seq<char>, Seq<char>)>, name: Seq<char>)
    ensures
        first_member(members, name) is None ==> forall|i: int|
            0 <= i < members.len() ==> (#[trigger] members[i]).0 != name,
        first_member(members, name) matches Some(v) ==> exists|i: int|
            0 <= i < members.len() && #[trigger] members[i] == (name, v) && forall|j: int|
                0 <= j < i ==> (#[trigger] members[j]).0 != name,
    decreases members.len(),
{
    if members.len() > 0 && members[0].0 != name {
        let rest = members.drop_first();
        lemma_first_member(rest, name);
        match first_member(members, name) {
            None => {
                assert forall|i: int| 0 <= i < members.len() implies (#[trigger] members[i]).0
                    != name by {
                    if i > 0 {
                        assert(members[i] == rest[i - 1]);
                    }
                }
            },
            Some(v) => {
                let i = choose|i: int|
                    0 <= i < rest.len() && #[trigger] rest[i] == (name, v) && forall|j: int|
                        0 <= j < i ==> (#[trigger] rest[j]).0 != name;
                assert(members[i + 1] == (name, v));
                assert forall|j: int| 0 <= j < i + 1 implies (#[trigger] members[j]).0 != name by {
                    if j > 0 {
                        assert(members[j] == rest[j - 1]);
                    }
                }
            },
        }
    } else if members.len() > 0 {
        assert(members[0] == (name, members[0].1));
    }
}

/// A member of an object is the first one with its name, and there is none where no member has
/// the name, or where the value is no object.
pub proof fn law_members_by_name(value: &JsonValue, name: &str, member: Option<String>)
    requires
        call_ensures(json_member, (value, name), member),
    ensures
        value matches JsonValue::Object(all) ==> {
            &&& member is None ==> forall|i: int|
                0 <= i < all@.len() ==> (#[trigger] all@[i]).0@ != name@
            &&& member matches Some(text) ==> exists|i: int|
                0 <= i < all@.len() && (#[trigger] all@[i]).0@ == name@ && all@[i].1@ == text@
                    && forall|j: int| 0 <= j < i ==> (#[trigger] all@[j]).0@ != name@
        },
        !(value is Object) ==> member is None,
{
    match value {
        JsonValue::Object(all) => {
            let v = all@.map_values(|m: (String, String)| (m.0@, m.1@));
            lemma_first_member(v, name@);
            match member {
                None => {
                    assert forall|i: int| 0 <= i < all@.len() implies (#[trigger] all@[i]).0@
                        != name@ by {
                        assert(v[i] == (all@[i].0@, all@[i].1@));
                    }
                },
                Some(text) => {
                    let i = choose|i: int|
                        0 <= i < v.len() && #[trigger] v[i] == (name@, text@) && forall|j: int|
                            0 <= j < i ==> (#[trigger] v[j]).0 != name@;
                    assert(v[i] == (all@[i].0@, all@[i].1@));
                    assert forall|j: int| 0 <= j < i implies (#[trigger] all@[j]).0@ != name@ by {
                        assert(v[j].0 == all@[j].0@);
                    }
                },
            }
        },
        _ => {},
    }
}

/// A member of the object with a text is a member of what is read from the text, and a text
/// value is what is read from its text.
pub proof fn law_texts_are_read(text: Option<String>, name: &str, member: Option<String>)
    requires
        call_ensures(member_at, (text, name), member),
    ensures
        text is None ==> member is None,
        text matches Some(t) ==> !(json_item(t@) is Object) ==> member is None,
        text matches Some(t) ==> json_item(t@) is Object ==> match member {
            None => forall|i: int|
                0 <= i < json_item(t@)->Object_0.len() ==> (
                #[trigger] json_item(t@)->Object_0[i]).0 != name@,
            Some(m) => exists|i: int|
                0 <= i < json_item(t@)->Object_0.len() && #[trigger] json_item(t@)->Object_0[i] == (
                    name@,
                    m@,
                ) && forall|j: int|
                    0 <= j < i ==> (#[trigger] json_item(t@)->Object_0[j]).0 != name@,
        },
{
    match text {
        Some(t) => match json_item(t@) {
            JsonItem::Object(all) => lemma_first_member(all, name@),
            _ => {},
        },
        None => {},
    }
}

/// A text stands for the text that is read from it, and for none where something else is read.
pub proof fn law_text_values(text: Option<String>, value: Option<String>)
    requires
        call_ensures(text_value, (text,), value),
    ensures
        text is None ==> value is None,
        text is Some ==> match json_item(text->Some_0@) {
            JsonItem::Text(s) => value is Some && value->Some_0@ == s,
            _ => value is None,
        },
{
}

} // verus!
