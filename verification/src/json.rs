//! JSON values, as `serde_json` holds and writes them.
use vstd::prelude::*;
use vstd::string::*;
use crate::text::{opt_str, opt_text};

verus! {

/// `serde_json::Value`: any JSON value.
#[verifier::external_type_specification]
#[verifier::external_body]
pub struct ExValue(serde_json::Value);

/// `serde_json::Error`: why a value could not be written.
#[verifier::external_type_specification]
#[verifier::external_body]
pub struct ExError(serde_json::Error);

/// What a JSON value holds, one level deep.
pub enum JsonContent {
    Null,
    Text(Seq<char>),
    List(Seq<serde_json::Value>),
    Object(Map<Seq<char>, serde_json::Value>),
    /// A boolean or a number.
    Scalar,
}

/// What a JSON value holds.
pub uninterp spec fn json_content(v: serde_json::Value) -> JsonContent;

/// The text that a JSON value is displayed as.
pub uninterp spec fn json_display(v: serde_json::Value) -> Seq<char>;

/// The text that a JSON value is written as; `None` where it cannot be
/// written.
pub uninterp spec fn json_written(v: serde_json::Value) -> Option<Seq<char>>;

/// The member `key` of a JSON object.
pub open spec fn json_member(v: serde_json::Value, key: Seq<char>) -> Option<serde_json::Value> {
    match json_content(v) {
        JsonContent::Object(m) => if m.dom().contains(key) {
            Some(m[key])
        } else {
            None
        },
        _ => None,
    }
}

/// The characters of a JSON string.
pub open spec fn json_string(v: serde_json::Value) -> Option<Seq<char>> {
    match json_content(v) {
        JsonContent::Text(s) => Some(s),
        _ => None,
    }
}

/// The elements of a JSON array.
pub open spec fn json_elements(v: serde_json::Value) -> Option<Seq<serde_json::Value>> {
    match json_content(v) {
        JsonContent::List(s) => Some(s),
        _ => None,
    }
}

/// `Value::clone` copies the whole value.
pub assume_specification[ <serde_json::Value as Clone>::clone ](
    v: &serde_json::Value,
) -> (r: serde_json::Value)
    ensures
        r == *v,
;

/// `Value::get` with a string: the member of that name where the value is an
/// object that has one, and nothing else.
#[verifier::external_body]
pub(crate) fn value_get<'a>(v: &'a serde_json::Value, key: &str) -> (r: Option<
    &'a serde_json::Value,
>)
    ensures
        match r {
            Some(m) => json_member(*v, key@) == Some(*m),
            None => json_member(*v, key@) is None,
        },
{
    v.get(key)
}

/// `Value::as_str`: the string, where the value is one.
#[verifier::external_body]
pub(crate) fn value_as_str<'a>(v: &'a serde_json::Value) -> (r: Option<&'a str>)
    ensures
        opt_str(r) == json_string(*v),
{
    v.as_str()
}

/// `Value::as_array`: the elements, where the value is an array.
#[verifier::external_body]
pub(crate) fn value_as_array<'a>(v: &'a serde_json::Value) -> (r: Option<
    &'a Vec<serde_json::Value>,
>)
    ensures
        match r {
            Some(a) => json_elements(*v) == Some(a@),
            None => json_elements(*v) is None,
        },
{
    v.as_array()
}

/// `Value::is_null`: whether the value is JSON's null.
#[verifier::external_body]
pub(crate) fn value_is_null(v: &serde_json::Value) -> (r: bool)
    ensures
        r == (json_content(*v) is Null),
{
    v.is_null()
}

/// `Value::String`: the JSON string with the given characters.
#[verifier::external_body]
pub(crate) fn value_of_text(s: String) -> (r: serde_json::Value)
    ensures
        json_content(r) == JsonContent::Text(s@),
{
    serde_json::Value::String(s)
}

/// `Value::to_string`: the value as compact JSON text. That text is named, and
/// nothing more is said of it.
#[verifier::external_body]
pub(crate) fn value_to_string(v: &serde_json::Value) -> (r: String)
    ensures
        r@ == json_display(*v),
{
    v.to_string()
}

/// `serde_json::to_string` on a value: its compact JSON text, or an error.
/// Which of the two, and the text, are named, and nothing more is said of
/// them.
#[verifier::external_body]
pub(crate) fn value_write(v: &serde_json::Value) -> (r: Result<String, serde_json::Error>)
    ensures
        match r {
            Ok(s) => json_written(*v) == Some(s@),
            Err(_) => json_written(*v) is None,
        },
{
    serde_json::to_string(v)
}

/// A JSON scalar as it is shown: a string as its characters, anything else as
/// its JSON text.
pub open spec fn token(v: serde_json::Value) -> Seq<char> {
    match json_string(v) {
        Some(s) => s,
        None => json_display(v),
    }
}

/// A JSON scalar as it is shown: a string without quotes, anything else as
/// its JSON text.
pub fn scalar_token(value: &serde_json::Value) -> (r: String)
    ensures
        r@ == token(*value),
{
    match value_as_str(value) {
        Some(s) => s.to_owned(),
        None => value_to_string(value),
    }
}

/// A written value, or `null` for one that cannot be written.
pub open spec fn written_or_null(w: Option<Seq<char>>) -> Seq<char> {
    match w {
        Some(s) => s,
        None => "null"@,
    }
}

/// How a change from `old` to `new` is shown, given the JSON text of the two
/// sides.
pub open spec fn sides(old: Option<Seq<char>>, new: Option<Seq<char>>) -> Seq<char> {
    match (old, new) {
        (Some(o), Some(n)) => o + " \u{2192} "@ + n,
        (None, Some(n)) => "added: "@ + n,
        (Some(o), None) => "removed: "@ + o,
        (None, None) => Seq::empty(),
    }
}

/// The JSON text of one side of a change, `null` where it cannot be written.
pub open spec fn side_text(v: Option<serde_json::Value>) -> Option<Seq<char>> {
    match v {
        Some(x) => Some(written_or_null(json_written(x))),
        None => None,
    }
}

/// How a change is shown, given the JSON text of the two sides.
pub fn sides_text(old: Option<String>, new: Option<String>) -> (r: String)
    ensures
        r@ == sides(opt_text(old), opt_text(new)),
{
    match (old, new) {
        (Some(o), Some(n)) => {
            let mut s: String = o;
            s.append(" \u{2192} ");
            s.append(n.as_str());
            s
        },
        (None, Some(n)) => {
            let mut s: String = "added: ".to_owned();
            s.append(n.as_str());
            s
        },
        (Some(o), None) => {
            let mut s: String = "removed: ".to_owned();
            s.append(o.as_str());
            s
        },
        (None, None) => String::new(),
    }
}

/// The JSON text of one side of a change.
fn compact(v: &Option<serde_json::Value>) -> (r: Option<String>)
    ensures
        opt_text(r) == side_text(*v),
{
    match v {
        Some(x) => match value_write(x) {
            Ok(s) => Some(s),
            Err(_) => Some("null".to_owned()),
        },
        None => None,
    }
}

/// How a change from `old` to `new` is shown: both sides as JSON text.
pub fn side_detail(old: &Option<serde_json::Value>, new: &Option<serde_json::Value>) -> (r: String)
    ensures
        r@ == sides(side_text(*old), side_text(*new)),
{
    sides_text(compact(old), compact(new))
}

// ---------------------------------------------------------------------
// Laws
// ---------------------------------------------------------------------

/// Law: a member, a text or elements are had from an object, a string or an
/// array respectively, exactly as it holds them, and from nothing else.
pub proof fn law_json_parts(v: serde_json::Value, key: Seq<char>)
    ensures
        json_content(v) matches JsonContent::Object(m) ==> (json_member(v, key) is Some
            <==> m.dom().contains(key)) && (m.dom().contains(key) ==> json_member(v, key) == Some(
            m[key],
        )),
        !(json_content(v) is Object) ==> json_member(v, key) is None,
        json_content(v) matches JsonContent::Text(s) ==> json_string(v) == Some(s),
        !(json_content(v) is Text) ==> json_string(v) is None,
        json_content(v) matches JsonContent::List(s) ==> json_elements(v) == Some(s),
        !(json_content(v) is List) ==> json_elements(v) is None,
{
}

/// Law: a string is shown as its characters, any other value as its JSON text.
pub proof fn law_token(v: serde_json::Value)
    ensures
        json_content(v) matches JsonContent::Text(s) ==> token(v) == s,
        !(json_content(v) is Text) ==> token(v) == json_display(v),
{
}

/// Law: a change with both sides shows the old one, an arrow and the new one;
/// with one side it says whether that was added or removed; without sides it
/// shows nothing. A side is shown as the JSON text of the value.
pub proof fn law_sides(o: Seq<char>, n: Seq<char>, v: serde_json::Value)
    ensures
        sides(Some(o), Some(n)) == o + " \u{2192} "@ + n,
        sides(None, Some(n)) == "added: "@ + n,
        sides(Some(o), None) == "removed: "@ + o,
        sides(None, None) == Seq::<char>::empty(),
        json_written(v) matches Some(s) ==> side_text(Some(v)) == Some(s),
        json_written(v) is None ==> side_text(Some(v)) == Some("null"@),
        side_text(None) is None,
{
}

} // verus!
