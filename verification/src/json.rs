//! JSON objects, as far as replies need them.

use vstd::prelude::*;

verus! {

/// The value of a member of a JSON object.
pub enum JsonField {
    /// A number, written out in decimal.
    Number(String),
    Text(String),
    /// Any other value.
    Other,
}

/// What a [`JsonField`] is.
pub enum JsonFieldView {
    Number(Seq<char>),
    Text(Seq<char>),
    Other,
}

impl View for JsonField {
    type V = JsonFieldView;

    open spec fn view(&self) -> JsonFieldView {
        match self {
            JsonField::Number(s) => JsonFieldView::Number(s@),
            JsonField::Text(s) => JsonFieldView::Text(s@),
            JsonField::Other => JsonFieldView::Other,
        }
    }
}

/// The members of an object: each key with its value.
pub open spec fn members_view(members: Seq<(String, JsonField)>) -> Seq<(Seq<char>, JsonFieldView)> {
    members.map_values(|m: (String, JsonField)| (m.0@, m.1@))
}

/// The members of the JSON object that a text holds, in the order in which `serde_json` keeps
/// them; nothing where the text is not one JSON object.
pub uninterp spec fn json_members(text: Seq<char>) -> Option<Seq<(Seq<char>, JsonFieldView)>>;

/// Calls `serde_json::from_str` for a `serde_json::Value`.
///
/// The claim is that what it reads is a function of the text: the members where the text is one
/// JSON object, and nothing where it is malformed or another kind of value. A number comes as
/// the text that `serde_json::Number` writes for it, from which its value can be read back.
#[verifier::external_body]
pub(crate) fn read_object(text: &str) -> (r: Option<Vec<(String, JsonField)>>)
    ensures
        match r {
            Some(members) => json_members(text@) == Some(members_view(members@)),
            None => json_members(text@) is None,
        },
{
    match serde_json::from_str(text) {
        Ok(serde_json::Value::Object(map)) => Some(map.into_iter().map(|(key, value)| match value {
            serde_json::Value::Number(n) => (key, JsonField::Number(n.to_string())),
            serde_json::Value::String(s) => (key, JsonField::Text(s)),
            _ => (key, JsonField::Other),
        }).collect()),
        _ => None,
    }
}

/// The value of the first member with a key, among those from position `from` on.
pub open spec fn member_from(
    members: Seq<(Seq<char>, JsonFieldView)>,
    key: Seq<char>,
    from: int,
) -> Option<JsonFieldView>
    decreases members.len() - from,
{
    if from >= members.len() {
        None
    } else if members[from].0 == key {
        Some(members[from].1)
    } else {
        member_from(members, key, from + 1)
    }
}

} // verus!
