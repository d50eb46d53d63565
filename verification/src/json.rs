//! The JSON bodies that the directory itself writes and reads.

use vstd::prelude::*;

verus! {

/// The boolean under `field` in a JSON text, where the text is an object that has one.
pub uninterp spec fn json_flag(text: Seq<char>, field: Seq<char>) -> Option<bool>;

/// The string under `field` in a JSON text, where the text is an object that has one.
pub uninterp spec fn json_text(text: Seq<char>, field: Seq<char>) -> Option<Seq<char>>;

/// The JSON text of an object with three string fields and a boolean one, each given
/// with its name.
pub uninterp spec fn json_object(
    a: (Seq<char>, Seq<char>),
    b: (Seq<char>, Seq<char>),
    c: (Seq<char>, Seq<char>),
    flag: (Seq<char>, bool),
) -> Seq<char>;

/// `serde_json::from_str` to a `Value`, then `Value::get` and `Value::as_bool`: nothing
/// where the text is no JSON, no object, or has no boolean there. The outcome depends
/// on the text and the field alone, and is named `json_flag`.
#[verifier::external_body]
pub(crate) fn read_flag(text: &str, field: &str) -> (r: Option<bool>)
    ensures
        r == json_flag(text@, field@),
{
    serde_json::from_str::<serde_json::Value>(text).ok()?.get(field)?.as_bool()
}

/// `serde_json::from_str` to a `Value`, then `Value::get` and `Value::as_str`: nothing
/// where the text is no JSON, no object, or has no string there. The outcome depends
/// on the text and the field alone, and is named `json_text`.
#[verifier::external_body]
pub(crate) fn read_text(text: &str, field: &str) -> (r: Option<String>)
    ensures
        match r {
            Some(s) => json_text(text@, field@) == Some(s@),
            None => json_text(text@, field@) is None,
        },
{
    serde_json::from_str::<serde_json::Value>(text).ok()?.get(field)?.as_str().map(|s| s.to_string())
}

/// A field name without the mark of the names that `serde_json` keeps for itself.
pub open spec fn plain_field(k: Seq<char>) -> bool {
    k.len() == 0 || k[0] != '$'
}

/// `Value::to_string` on an object that `Map::from_iter` collects from these fields. The
/// text depends on the fields alone, and is named `json_object`. Parsing it gives back
/// each field as it was put in. The field names are distinct, and none begins with a
/// dollar sign, which marks the names that `serde_json` reads in a way of its own.
#[verifier::external_body]
pub(crate) fn write_object(a: (&str, &str), b: (&str, &str), c: (&str, &str), flag: (&str, bool)) -> (r: String)
    requires
        plain_field(a.0@) && plain_field(b.0@) && plain_field(c.0@) && plain_field(flag.0@),
        a.0@ != b.0@ && a.0@ != c.0@ && b.0@ != c.0@,
        flag.0@ != a.0@ && flag.0@ != b.0@ && flag.0@ != c.0@,
    ensures
        r@ == json_object((a.0@, a.1@), (b.0@, b.1@), (c.0@, c.1@), (flag.0@, flag.1)),
        json_text(r@, a.0@) == Some(a.1@),
        json_text(r@, b.0@) == Some(b.1@),
        json_text(r@, c.0@) == Some(c.1@),
        json_flag(r@, flag.0@) == Some(flag.1),
{
    let fields = [
        (a.0.to_string(), serde_json::Value::String(a.1.to_string())),
        (b.0.to_string(), serde_json::Value::String(b.1.to_string())),
        (c.0.to_string(), serde_json::Value::String(c.1.to_string())),
        (flag.0.to_string(), serde_json::Value::Bool(flag.1)),
    ];
    serde_json::Value::Object(serde_json::Map::from_iter(fields)).to_string()
}

} // verus!
