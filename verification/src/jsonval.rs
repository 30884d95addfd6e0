//! Trusted boundary to the `serde_json` crate.
//!
//! The configuration is carried as a generic JSON value, so members other
//! than the one key this crate reads survive a rewrite untouched. The
//! value is opaque here; the uninterpreted functions below name what the
//! contracts observe of it and of the texts it parses from.

use vstd::prelude::*;

verus! {

#[verifier::external_type_specification]
#[verifier::external_body]
pub struct ExJsonValue(serde_json::Value);

/// Whether a JSON value is an object (a key-value mapping).
pub uninterp spec fn is_obj(v: serde_json::Value) -> bool;

/// The `database` entry of a JSON value: `None` where the key is absent
/// or null, `Some(None)` where it holds a non-string value, and
/// `Some(Some(path))` where it holds the string `path`.
pub uninterp spec fn db_entry(v: serde_json::Value) -> Option<Option<Seq<char>>>;

/// Whether two JSON values agree on every object member other than
/// `database`. Named so that contracts can state that a rewrite of the
/// `database` key leaves the rest of a configuration untouched.
pub uninterp spec fn eq_except_db(a: serde_json::Value, b: serde_json::Value) -> bool;

/// The shape of what `serde_json::from_str::<serde_json::Value>` makes
/// of a text: `None` where the text is not valid JSON, `Some(false)`
/// where it is JSON but not an object, `Some(true)` where it is an
/// object. A function of the text alone.
pub uninterp spec fn parse_shape(text: Seq<char>) -> Option<bool>;

/// The value that a text parses to, where it parses at all. A function
/// of the text alone: parsing is deterministic.
pub uninterp spec fn parsed_value(text: Seq<char>) -> serde_json::Value;

/// Whether a JSON value nests shallowly enough that the text it
/// serializes to stays within the parser's recursion limit, so the
/// serialize-then-parse round trip goes through. Every parsed value is
/// such (the parser enforces the limit on the way in), and setting a
/// string member keeps it so; a value nested deeper can be built by
/// hand, which is why the round-trip contracts are guarded by this.
pub uninterp spec fn parseable(v: serde_json::Value) -> bool;

/// The `database` entry of the value that a text parses to, where it
/// parses at all.
pub open spec fn parsed_db(text: Seq<char>) -> Option<Option<Seq<char>>> {
    db_entry(parsed_value(text))
}

/// Relies on `serde_json::from_str::<serde_json::Value>`: its outcome is
/// a function of the text alone — it succeeds exactly on valid JSON,
/// yielding the text's value, whose nesting the parser has bounded by
/// its recursion limit. Parsing `{}` yields the empty object, which has
/// no `database` member.
#[verifier::external_body]
pub(crate) fn json_parse(text: &str) -> (r: Result<serde_json::Value, ()>)
    ensures
        match r {
            Ok(v) => parse_shape(text@) == Some(is_obj(v)) && v == parsed_value(text@)
                && parseable(v),
            Err(_) => parse_shape(text@) is None,
        },
        text@ == "{}"@ ==> r is Ok && is_obj(r->Ok_0) && db_entry(r->Ok_0) is None,
{
    serde_json::from_str::<serde_json::Value>(text).map_err(|_| ())
}

/// Relies on `serde_json::Value::is_object`: it tells the object variant
/// of the value apart from every other variant.
#[verifier::external_body]
pub(crate) fn json_is_object(v: &serde_json::Value) -> (r: bool)
    ensures
        r == is_obj(*v),
{
    v.is_object()
}

/// Relies on `serde_json::Value::get` and `Value::is_null`: whether the
/// `database` key is present with a non-null value.
#[verifier::external_body]
pub(crate) fn json_db_present(v: &serde_json::Value) -> (r: bool)
    ensures
        r == !(db_entry(*v) is None),
{
    match v.get("database") {
        Some(d) => !d.is_null(),
        None => false,
    }
}

/// Relies on `serde_json::Value::get` and `Value::as_str`: the `database`
/// entry exactly where it holds a string.
#[verifier::external_body]
pub(crate) fn json_db_str(v: &serde_json::Value) -> (r: Option<String>)
    ensures
        match r {
            Some(p) => db_entry(*v) == Some(Some(p@)),
            None => db_entry(*v) is None || db_entry(*v) == Some(None::<Seq<char>>),
        },
{
    match v.get("database") {
        Some(d) => match d.as_str() {
            Some(s) => Some(s.to_string()),
            None => None,
        },
        None => None,
    }
}

/// Relies on `serde_json::Value::as_object_mut` and `Map::insert`: on an
/// object, inserting under the `database` key leaves it an object whose
/// `database` entry holds the given path string; insert replaces only
/// that one key, so every other member is kept as it was, and a string
/// member adds no nesting, so the round-trip bound is kept too.
#[verifier::external_body]
pub(crate) fn json_set_db(v: &mut serde_json::Value, path: &str)
    requires
        is_obj(*old(v)),
        parseable(*old(v)),
    ensures
        is_obj(*final(v)),
        parseable(*final(v)),
        db_entry(*final(v)) == Some(Some(path@)),
        eq_except_db(*old(v), *final(v)),
{
    if let Some(map) = v.as_object_mut() {
        map.insert("database".to_string(), serde_json::Value::String(path.to_string()));
    }
}

/// Relies on `serde_json::to_string_pretty`: on a `Value` it cannot fail
/// (it writes into a vector, object keys are strings, and every held
/// number is representable), and for an object within the parser's
/// nesting bound the produced text parses back to the very value that
/// was rendered, every member included.
#[verifier::external_body]
pub(crate) fn json_render(v: &serde_json::Value) -> (r: Result<String, ()>)
    ensures
        r is Ok,
        is_obj(*v) && parseable(*v) ==> parse_shape(r->Ok_0@) == Some(true) && parsed_value(
            r->Ok_0@,
        ) == *v,
{
    serde_json::to_string_pretty(v).map_err(|_| ())
}

} // verus!
