//! What this crate takes on trust from the JSON parser.

use std::collections::BTreeMap;
use vstd::prelude::*;
use vstd::string::StringSliceAdditionalSpecFns;

verus! {

/// `serde_json::Error`: why the parser rejected a text. Nothing is read from
/// it.
#[verifier::external_type_specification]
#[verifier::external_body]
pub struct ExJsonError(serde_json::Error);

/// `core::str::Utf8Error`: why bytes are not UTF-8. Nothing is read from it.
#[verifier::external_type_specification]
#[verifier::external_body]
pub struct ExUtf8Error(core::str::Utf8Error);

/// The members of the JSON object that a text is, each as its name and the
/// text of its value, in the order of the names; where a name is written
/// more than once, the last value that is written for it. `None` where the
/// text is not JSON or is a JSON value other than an object.
pub uninterp spec fn json_object_members(text: Seq<char>) -> Option<
    Seq<(Seq<char>, Seq<char>)>,
>;

/// The string that a text denotes as a JSON string, with its escapes
/// resolved. `None` where the text is not a JSON string.
pub uninterp spec fn json_string_value(text: Seq<char>) -> Option<Seq<char>>;

/// The names and value texts of a list of members.
pub open spec fn member_views(members: Seq<(String, String)>) -> Seq<(Seq<char>, Seq<char>)> {
    members.map_values(|m: (String, String)| (m.0@, m.1@))
}

/// Reads a text as a JSON object and hands out its members.
///
/// Calls `serde_json::from_str` for a map from `String` to
/// `Box<serde_json::value::RawValue>`, and copies each entry out. The parser
/// accepts the text only if it is one JSON object, keeps for each member the
/// text of its value as it stands in the input, and depends on nothing but
/// the text: the contract gives that result its name and claims no more.
#[verifier::external_body]
pub(crate) fn object_members(text: &str) -> (r: Result<Vec<(String, String)>, serde_json::Error>)
    ensures
        match r {
            Ok(members) => json_object_members(text@) == Some(member_views(members@)),
            Err(_) => json_object_members(text@) is None,
        },
{
    let parsed: BTreeMap<String, Box<serde_json::value::RawValue>> = serde_json::from_str(text)?;
    Ok(parsed.into_iter().map(|(name, value)| (name, value.get().to_owned())).collect())
}

/// Reads a text as a JSON string.
///
/// Calls `serde_json::from_str` for a `String`, which succeeds only on a
/// JSON string and resolves its escapes; the result depends on nothing but
/// the text, and the contract gives it its name.
#[verifier::external_body]
pub(crate) fn string_value(text: &str) -> (r: Result<String, serde_json::Error>)
    ensures
        match r {
            Ok(s) => json_string_value(text@) == Some(s@),
            Err(_) => json_string_value(text@) is None,
        },
{
    serde_json::from_str::<String>(text)
}

/// Reads bytes as UTF-8 text.
///
/// Calls `core::str::from_utf8`, which the standard library documents to
/// succeed exactly on valid UTF-8 and then to give the same bytes back as a
/// string slice.
#[verifier::external_body]
pub(crate) fn utf8_text(bytes: &[u8]) -> (r: Result<&str, core::str::Utf8Error>)
    ensures
        r is Ok <==> vstd::utf8::valid_utf8(bytes@),
        r matches Ok(s) ==> s.spec_bytes() == bytes@,
{
    core::str::from_utf8(bytes)
}

} // verus!
