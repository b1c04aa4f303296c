//! JSON objects.
use crate::text::{optional_text, together};
use serde_json::Value;
use vstd::prelude::*;

verus! {

/// `serde_json::Map`, a JSON object.
#[verifier::external_type_specification]
#[verifier::external_body]
#[verifier::reject_recursive_types(K)]
#[verifier::reject_recursive_types(V)]
pub struct ExJsonMap<K, V>(serde_json::Map<K, V>);

/// `serde_json::Value`, a JSON value.
#[verifier::external_type_specification]
#[verifier::external_body]
pub struct ExJsonValue(serde_json::Value);

/// A JSON value. Numbers, arrays and null, of which none is made here, are
/// taken by the text that they are written as.
pub enum Json {
    Text(Seq<char>),
    Flag(bool),
    Object(Seq<(Seq<char>, Json)>),
    Other(Seq<char>),
}

/// A value to put into a JSON object.
pub enum JsonItem {
    Text(String),
    Flag(bool),
    Object(serde_json::Map<String, Value>),
}

impl View for JsonItem {
    type V = Json;

    open spec fn view(&self) -> Json {
        match self {
            JsonItem::Text(text) => Json::Text(text@),
            JsonItem::Flag(flag) => Json::Flag(*flag),
            JsonItem::Object(map) => Json::Object(entries(*map)),
        }
    }
}

/// The members of a JSON object, in order.
pub uninterp spec fn entries(map: serde_json::Map<String, Value>) -> Seq<(Seq<char>, Json)>;

/// The members with the value of `key` set to `item`: in its place, where there
/// is such a member, and at the end otherwise.
pub open spec fn with_entry(members: Seq<(Seq<char>, Json)>, key: Seq<char>, item: Json) -> Seq<
    (Seq<char>, Json),
>
    decreases members.len(),
{
    if members.len() == 0 {
        seq![(key, item)]
    } else if members[0].0 == key {
        members.update(0, (key, item))
    } else {
        seq![members[0]] + with_entry(members.skip(1), key, item)
    }
}

/// A member with a new key comes to stand at the end.
pub proof fn new_members_come_last(members: Seq<(Seq<char>, Json)>, key: Seq<char>, item: Json)
    requires
        forall|i: int| 0 <= i < members.len() ==> (#[trigger] members[i]).0 != key,
    ensures
        with_entry(members, key, item) == members.push((key, item)),
    decreases members.len(),
{
    if members.len() > 0 {
        let rest = members.skip(1);
        assert forall|i: int| 0 <= i < rest.len() implies (#[trigger] rest[i]).0 != key by {
            assert(rest[i] == members[i + 1]);
        }
        new_members_come_last(rest, key, item);
        assert(members[0].0 != key);
        assert(seq![members[0]] + rest.push((key, item)) =~= members.push((key, item)));
    } else {
        assert(members.push((key, item)) =~= seq![(key, item)]);
    }
}

/// `serde_json::Map::new` makes an object without members.
#[verifier::external_body]
pub(crate) fn new_object() -> (map: serde_json::Map<String, Value>)
    ensures
        entries(map) == Seq::<(Seq<char>, Json)>::empty(),
{
    serde_json::Map::new()
}

/// `serde_json::Map::insert` sets the value of a key. With the feature
/// `preserve_order` an object keeps its members in the order in which their
/// keys came: a known key keeps its place, a new one goes to the end.
#[verifier::external_body]
pub(crate) fn put(map: &mut serde_json::Map<String, Value>, key: String, item: JsonItem)
    ensures
        entries(*final(map)) == with_entry(entries(*old(map)), key@, item@),
{
    let value = match item {
        JsonItem::Text(text) => Value::String(text),
        JsonItem::Flag(flag) => Value::Bool(flag),
        JsonItem::Object(object) => Value::Object(object),
    };
    map.insert(key, value);
}

/// The hexadecimal digit for a number below sixteen.
pub open spec fn hex_digit(d: int) -> char {
    if d < 10 {
        (48 + d) as char
    } else {
        (87 + d) as char
    }
}

/// A character inside a JSON string: quotes, backslashes and control
/// characters are escaped.
pub open spec fn escaped(c: char) -> Seq<char> {
    if c == '"' {
        seq!['\\', '"']
    } else if c == '\\' {
        seq!['\\', '\\']
    } else if c == '\u{8}' {
        seq!['\\', 'b']
    } else if c == '\t' {
        seq!['\\', 't']
    } else if c == '\n' {
        seq!['\\', 'n']
    } else if c == '\u{c}' {
        seq!['\\', 'f']
    } else if c == '\r' {
        seq!['\\', 'r']
    } else if 32 > c as int {
        seq!['\\', 'u', '0', '0', hex_digit(c as int / 16), hex_digit(c as int % 16)]
    } else {
        seq![c]
    }
}

/// A text as a JSON string.
pub open spec fn string_text(s: Seq<char>) -> Seq<char> {
    "\""@ + together(s.map_values(|c: char| escaped(c))) + "\""@
}

/// A JSON value as compact text, without spaces.
pub open spec fn json_text(value: Json) -> Seq<char>
    decreases value,
{
    match value {
        Json::Text(text) => string_text(text),
        Json::Flag(true) => "true"@,
        Json::Flag(false) => "false"@,
        Json::Object(members) => "{"@ + members_text(members) + "}"@,
        Json::Other(text) => text,
    }
}

/// The members of an object as compact text, separated by commas.
pub open spec fn members_text(members: Seq<(Seq<char>, Json)>) -> Seq<char>
    decreases members,
{
    if members.len() == 0 {
        Seq::empty()
    } else {
        let last = members[members.len() - 1];
        let member = string_text(last.0) + ":"@ + json_text(last.1);
        if members.len() == 1 {
            member
        } else {
            members_text(members.subrange(0, members.len() - 1)) + ","@ + member
        }
    }
}

/// `serde_json::to_string` writes a value as compact JSON text: strings with
/// quotes, backslashes and control characters escaped, objects by their members
/// in order, nothing between the parts but the punctuation. It fails only where
/// a key is no string or a `Serialize` implementation fails by itself, which
/// that of `Value` does not.
#[verifier::external_body]
pub(crate) fn write_object(map: serde_json::Map<String, Value>) -> (text: Option<String>)
    ensures
        optional_text(text) == Some(json_text(Json::Object(entries(map)))),
{
    serde_json::to_string(&Value::Object(map)).ok()
}

} // verus!
