//! JSON, as far as the library reads and writes it.
use crate::chars::{copy_text, push_text, same_text, string_of};
use serde_json::Value;
use vstd::prelude::*;

verus! {

/// A JSON value.
pub enum JsonView {
    Null,
    Bool(bool),
    /// A number that is a 64-bit integer.
    Integer(i64),
    /// Another number, in the form in which it is written.
    Number(Seq<char>),
    Text(Seq<char>),
    List(Seq<JsonView>),
    Object(Map<Seq<char>, JsonView>),
}

#[verifier::external_type_specification]
#[verifier::external_body]
pub struct ExJson(Value);

/// What a JSON value is.
pub uninterp spec fn json_view(v: Value) -> JsonView;

/// What a JSON text stands for, if it is one.
pub uninterp spec fn json_doc(src: Seq<char>) -> Option<JsonView>;

/// The JSON text of a value.
pub uninterp spec fn json_written(v: JsonView) -> Seq<char>;

/// A text as a JSON string, with quotes and escapes.
pub uninterp spec fn json_quoted(s: Seq<char>) -> Seq<char>;

/// `serde_json::from_str` for a JSON value: what the text stands for, if it is
/// JSON.
#[verifier::external_body]
pub(crate) fn read_json(src: &str) -> (r: Option<Value>)
    ensures
        match r {
            Some(v) => json_doc(src@) == Some(json_view(v)),
            None => json_doc(src@) is None,
        },
{
    serde_json::from_str(src).ok()
}

/// `serde_json::to_string` for a JSON value: its JSON text, in which the keys of an
/// object stand in order.
#[verifier::external_body]
pub(crate) fn write_json(v: &Value) -> (r: String)
    ensures
        r@ == json_written(json_view(*v)),
{
    serde_json::to_string(v).unwrap_or_default()
}

/// `serde_json::to_string` for a text: the text as a JSON string, which reads
/// back as the same text.
#[verifier::external_body]
pub(crate) fn quote(s: &str) -> (r: String)
    ensures
        r@ == json_quoted(s@),
        json_doc(r@) == Some(JsonView::Text(s@)),
{
    serde_json::to_string(s).unwrap_or_default()
}

/// `serde_json::Value::as_str`: the text, where the value is one.
pub assume_specification[ Value::as_str ](v: &Value) -> (r: Option<&str>)
    ensures
        match r {
            Some(s) => json_view(*v) == JsonView::Text(s@),
            None => !(json_view(*v) is Text),
        },
;

/// `serde_json::Value::as_bool`: the truth value, where the value is one.
pub assume_specification[ Value::as_bool ](v: &Value) -> (r: Option<bool>)
    ensures
        match r {
            Some(b) => json_view(*v) == JsonView::Bool(b),
            None => !(json_view(*v) is Bool),
        },
;

/// `serde_json::Value::as_i64`: the number, where the value is a 64-bit integer.
pub assume_specification[ Value::as_i64 ](v: &Value) -> (r: Option<i64>)
    ensures
        match r {
            Some(n) => json_view(*v) == JsonView::Integer(n),
            None => !(json_view(*v) is Integer),
        },
;

/// `serde_json::Value::get` with a key: the value of the key, where the value is
/// an object that has it.
#[verifier::external_body]
pub(crate) fn value_get<'a>(v: &'a Value, key: &str) -> (r: Option<&'a Value>)
    ensures
        match r {
            Some(x) => json_view(*v) is Object && json_view(*v)->Object_0.contains_key(key@)
                && json_view(*v)->Object_0[key@] == json_view(*x),
            None => json_view(*v) is Object ==> !json_view(*v)->Object_0.contains_key(key@),
        },
{
    v.get(key)
}

/// The value of a key, where the value is an object that has it.
pub open spec fn entry(v: JsonView, key: Seq<char>) -> Option<JsonView> {
    match v {
        JsonView::Object(m) => if m.contains_key(key) {
            Some(m[key])
        } else {
            None
        },
        _ => None,
    }
}

/// The text of a key, where the value is an object that has one.
pub open spec fn text_entry(v: JsonView, key: Seq<char>) -> Option<Seq<char>> {
    match entry(v, key) {
        Some(JsonView::Text(s)) => Some(s),
        _ => None,
    }
}

/// The text of a key, where the value is an object that has one.
pub(crate) fn text_of(v: &Value, key: &str) -> (r: Option<String>)
    ensures
        match r {
            Some(s) => text_entry(json_view(*v), key@) == Some(s@),
            None => text_entry(json_view(*v), key@) is None,
        },
{
    match value_get(v, key) {
        Some(x) => match x.as_str() {
            Some(s) => Some(copy_text(s)),
            None => None,
        },
        None => None,
    }
}

/// The truth value of a key, where the value is an object that has one.
pub open spec fn bool_entry(v: JsonView, key: Seq<char>) -> Option<bool> {
    match entry(v, key) {
        Some(JsonView::Bool(b)) => Some(b),
        _ => None,
    }
}

/// The truth value of a key, where the value is an object that has one.
pub(crate) fn bool_of(v: &Value, key: &str) -> (r: Option<bool>)
    ensures
        r == bool_entry(json_view(*v), key@),
{
    match value_get(v, key) {
        Some(x) => x.as_bool(),
        None => None,
    }
}

/// The integer of a key, where the value is an object that has one.
pub open spec fn int_entry(v: JsonView, key: Seq<char>) -> Option<i64> {
    match entry(v, key) {
        Some(JsonView::Integer(n)) => Some(n),
        _ => None,
    }
}

/// The integer of a key, where the value is an object that has one.
pub(crate) fn int_of(v: &Value, key: &str) -> (r: Option<i64>)
    ensures
        r == int_entry(json_view(*v), key@),
{
    match value_get(v, key) {
        Some(x) => x.as_i64(),
        None => None,
    }
}

/// The text of a field of a message of the expected type.
pub open spec fn field_of(v: JsonView, expect_type: Seq<char>, field: Seq<char>) -> Option<Seq<char>> {
    if text_entry(v, "type"@) == Some(expect_type) {
        text_entry(v, field)
    } else {
        None
    }
}

/// The text of a field of a message of the expected type.
pub(crate) fn field_in(v: &Value, expect_type: &str, field: &str) -> (r: Option<String>)
    ensures
        match r {
            Some(s) => field_of(json_view(*v), expect_type@, field@) == Some(s@),
            None => field_of(json_view(*v), expect_type@, field@) is None,
        },
{
    match text_of(v, "type") {
        Some(t) => if same_text(t.as_str(), expect_type) {
            text_of(v, field)
        } else {
            None
        },
        None => None,
    }
}

/// The text of a field of a message in JSON, where it is of the expected type.
pub fn json_field(text: &str, expect_type: &str, field: &str) -> (r: Option<String>)
    ensures
        match json_doc(text@) {
            Some(v) => match r {
                Some(s) => field_of(v, expect_type@, field@) == Some(s@),
                None => field_of(v, expect_type@, field@) is None,
            },
            None => r is None,
        },
{
    match read_json(text) {
        Some(v) => field_in(&v, expect_type, field),
        None => None,
    }
}

/// The JSON text of an object with one text field and a type.
pub open spec fn tagged_text(key: Seq<char>, value: Seq<char>, kind: Seq<char>) -> Seq<char> {
    "{\""@ + key + "\":"@ + json_quoted(value) + ",\"type\":\""@ + kind + "\"}"@
}

/// The JSON text of an object with one text field and a type. The key and the
/// type are plain words.
pub fn tagged_json(key: &str, value: &str, kind: &str) -> (r: String)
    ensures
        r@ == tagged_text(key@, value@, kind@),
{
    let q = quote(value);
    let mut out: Vec<char> = Vec::new();
    push_text(&mut out, "{\"");
    push_text(&mut out, key);
    push_text(&mut out, "\":");
    push_text(&mut out, q.as_str());
    push_text(&mut out, ",\"type\":\"");
    push_text(&mut out, kind);
    push_text(&mut out, "\"}");
    assert(out@ =~= tagged_text(key@, value@, kind@));
    string_of(out.as_slice())
}

/// A message gives a field where it is of the expected type and the field is a text, and
/// else nothing.
pub proof fn law_messages_give_their_fields(
    m: Map<Seq<char>, JsonView>,
    kind: Seq<char>,
    field: Seq<char>,
    v: JsonView,
)
    ensures
        field_of(JsonView::Object(m), kind, field) == (if m.contains_key("type"@) && m["type"@]
            == JsonView::Text(kind) && m.contains_key(field) && m[field] is Text {
            Some(m[field]->Text_0)
        } else {
            None
        }),
        !(v is Object) ==> field_of(v, kind, field) is None,
{
}

} // verus!
