//! A JSON document as the saved game state holds it. Numbers keep their
//! textual form.
use vstd::prelude::*;

verus! {

/// A JSON value. Object members keep their order; a number is kept as the
/// text that denotes it.
#[derive(Debug)]
pub enum Json {
    Null,
    Bool(bool),
    Number(String),
    Str(String),
    Array(Vec<Json>),
    Object(Vec<(String, Json)>),
}

/// The value of the first member named `key`, or `Null` if there is none.
pub open spec fn member_value(members: Seq<(String, Json)>, key: Seq<char>) -> Json
    decreases members.len(),
{
    if members.len() == 0 {
        Json::Null
    } else if members[0].0@ == key {
        members[0].1
    } else {
        member_value(members.drop_first(), key)
    }
}

/// `value[key]` as JSON indexing reads it: the member's value for an object
/// that has one, `Null` otherwise.
pub open spec fn json_field(value: Json, key: Seq<char>) -> Json {
    match value {
        Json::Object(members) => member_value(members@, key),
        _ => Json::Null,
    }
}

/// The elements of an array value.
pub open spec fn json_array(value: Json) -> Option<Seq<Json>> {
    match value {
        Json::Array(items) => Some(items@),
        _ => None,
    }
}

/// The text of a string value.
pub open spec fn json_str(value: Json) -> Option<Seq<char>> {
    match value {
        Json::Str(s) => Some(s@),
        _ => None,
    }
}

/// An object without members.
pub open spec fn is_empty_object(value: Json) -> bool {
    match value {
        Json::Object(members) => members.len() == 0,
        _ => false,
    }
}

pub proof fn lemma_member_value_skip(members: Seq<(String, Json)>, key: Seq<char>, i: int)
    requires
        0 <= i <= members.len(),
        forall|k: int| 0 <= k < i ==> #[trigger] members[k].0@ != key,
    ensures
        member_value(members, key) == member_value(members.skip(i), key),
    decreases i,
{
    if i > 0 {
        assert(members[0].0@ != key);
        lemma_member_value_skip(members.drop_first(), key, i - 1);
        assert(members.drop_first().skip(i - 1) =~= members.skip(i));
    } else {
        assert(members.skip(0) =~= members);
    }
}

/// `value[key]`: the member's value when `value` is an object that has a
/// member `key`; `None` stands for the `Null` that indexing gives otherwise.
pub fn field<'a>(value: &'a Json, key: &str) -> (r: Option<&'a Json>)
    ensures
        match r {
            Some(v) => *v == json_field(*value, key@),
            None => json_field(*value, key@) == Json::Null,
        },
{
    match value {
        Json::Object(members) => {
            let k = String::from_str(key);
            let mut i: usize = 0;
            while i < members.len()
                invariant
                    0 <= i <= members.len(),
                    k@ == key@,
                    json_field(*value, key@) == member_value(members@, key@),
                    forall|t: int| 0 <= t < i ==> #[trigger] members@[t].0@ != key@,
                decreases members.len() - i,
            {
                if members[i].0 == k {
                    proof {
                        lemma_member_value_skip(members@, key@, i as int);
                        assert(members@.skip(i as int)[0] == members@[i as int]);
                    }
                    return Some(&members[i].1);
                }
                i = i + 1;
            }
            proof {
                lemma_member_value_skip(members@, key@, i as int);
            }
            None
        },
        _ => None,
    }
}

/// The elements, when `value` is an array.
pub fn as_array(value: &Json) -> (r: Option<&Vec<Json>>)
    ensures
        match r {
            Some(items) => json_array(*value) == Some(items@),
            None => json_array(*value) is None,
        },
{
    match value {
        Json::Array(items) => Some(items),
        _ => None,
    }
}

/// The text, when `value` is a string.
pub fn as_str(value: &Json) -> (r: Option<&String>)
    ensures
        match r {
            Some(s) => json_str(*value) == Some(s@),
            None => json_str(*value) is None,
        },
{
    match value {
        Json::Str(s) => Some(s),
        _ => None,
    }
}

#[verifier::external_type_specification]
#[verifier::external_body]
pub struct ExSerdeValue(serde_json::Value);

/// What `serde_json::from_str::<serde_json::Value>` makes of a text, as a
/// `Json`: `None` where the text is not valid JSON.
pub uninterp spec fn json_text_value(text: Seq<char>) -> Option<Json>;

/// Converts a `serde_json::Value` into a `Json` one for one: numbers keep
/// the text `Display` gives them, object members keep the map's order.
#[verifier::external_body]
fn json_of_serde(v: &serde_json::Value) -> Json {
    match v {
        serde_json::Value::Null => Json::Null,
        serde_json::Value::Bool(b) => Json::Bool(*b),
        serde_json::Value::Number(n) => Json::Number(n.to_string()),
        serde_json::Value::String(s) => Json::Str(s.clone()),
        serde_json::Value::Array(items) => Json::Array(items.iter().map(json_of_serde).collect()),
        serde_json::Value::Object(m) => Json::Object(
            m.iter().map(|(k, x)| (k.clone(), json_of_serde(x))).collect(),
        ),
    }
}

/// Calls `serde_json::from_str` for a `serde_json::Value` and converts the
/// value; `None` where serde_json refuses the text. The value is named, not
/// spelled out: it depends on the text alone.
#[verifier::external_body]
pub(crate) fn parse_json_text(text: &str) -> (r: Option<Json>)
    ensures
        r == json_text_value(text@),
{
    match serde_json::from_str::<serde_json::Value>(text) {
        Ok(v) => Some(json_of_serde(&v)),
        Err(_) => None,
    }
}

} // verus!
