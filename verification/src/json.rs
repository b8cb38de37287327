//! The JSON documents of the store, read and written by `serde_json`.
//!
//! A document is seen through three observations only: whether it is an
//! object, the members that hold a string, and the names under which it holds
//! nothing.

use serde_json::Value;
use vstd::prelude::*;

verus! {

#[verifier::external_type_specification]
#[verifier::external_body]
pub struct ExValue(serde_json::Value);

/// The members of a JSON object whose value is a string, by name. Empty for any other document.
pub uninterp spec fn json_strings(doc: Value) -> Map<Seq<char>, Seq<char>>;

/// The names under which a document holds nothing: no such member, or a member that is `null`.
pub uninterp spec fn json_absent(doc: Value) -> Set<Seq<char>>;

/// Whether a document is a JSON object.
pub uninterp spec fn json_is_object(doc: Value) -> bool;

/// What `serde_json` reads from a text: nothing if the text is not one JSON
/// document, else the observations of the document: its string members, the
/// names under which it holds nothing, and whether it is an object.
pub uninterp spec fn json_document(text: Seq<char>) -> Option<
    (Map<Seq<char>, Seq<char>>, Set<Seq<char>>, bool),
>;

/// The JSON string literal, quotes and escapes included, that `serde_json` writes for a text.
pub uninterp spec fn json_string_text(s: Seq<char>) -> Seq<char>;

/// `serde_json::from_str` at `serde_json::Value`.
/// Trusted: whether the text is accepted, and what the document then holds, is a
/// function of the text alone.
#[verifier::external_body]
pub(crate) fn parse_document(text: &str) -> (res: Option<Value>)
    ensures
        match res {
            Some(doc) => json_document(text@) == Some(
                (json_strings(doc), json_absent(doc), json_is_object(doc)),
            ),
            None => json_document(text@) is None,
        },
{
    serde_json::from_str::<Value>(text).ok()
}

/// `serde_json::Value::get` with a name, then `as_str`.
/// Trusted: the result is the string held under that name, if there is one.
#[verifier::external_body]
pub(crate) fn string_member(doc: &Value, name: &str) -> (res: Option<String>)
    ensures
        match res {
            Some(s) => json_strings(*doc).contains_key(name@) && json_strings(*doc)[name@] == s@,
            None => !json_strings(*doc).contains_key(name@),
        },
{
    Some(doc.get(name)?.as_str()?.to_string())
}

/// Indexing a `serde_json::Value` by a name, then `is_null`.
/// Trusted: the result says whether the document holds nothing under that name.
#[verifier::external_body]
pub(crate) fn member_absent(doc: &Value, name: &str) -> (res: bool)
    ensures
        res == json_absent(*doc).contains(name@),
{
    doc[name].is_null()
}

/// `serde_json::Value::is_object`.
/// Trusted: the result says whether the document is an object.
#[verifier::external_body]
pub(crate) fn is_object(doc: &Value) -> (res: bool)
    ensures
        res == json_is_object(*doc),
{
    doc.is_object()
}

/// `serde_json::to_string` at `str`.
/// Trusted: writing a string cannot fail, and the literal is a function of the text alone.
#[verifier::external_body]
pub(crate) fn quote(s: &str) -> (res: Option<String>)
    ensures
        res is Some,
        res matches Some(t) ==> t@ == json_string_text(s@),
{
    serde_json::to_string(s).ok()
}

} // verus!
