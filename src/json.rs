use vstd::prelude::*;

verus! {

/// Whether the text is one JSON value, as serde_json reads it.
pub uninterp spec fn json_parses(text: Seq<char>) -> bool;

/// The string at member `key` of the JSON object that the text holds; none
/// where the text holds no object, or the object no such string member.
pub uninterp spec fn json_str_member(text: Seq<char>, key: Seq<char>) -> Option<Seq<char>>;

/// The unsigned integer at member `key` of the JSON object that the text
/// holds; none where there is no such member that fits in a `u64`.
pub uninterp spec fn json_u64_member(text: Seq<char>, key: Seq<char>) -> Option<u64>;

/// The string at member `key` of each element of the JSON array that the
/// text holds; none where the text holds no array, or an element lacks it.
pub uninterp spec fn json_str_members(text: Seq<char>, key: Seq<char>) -> Option<Seq<Seq<char>>>;

/// Relies on `serde_json::from_str` into a `Value`, then `Value::get` and
/// `Value::as_str`: the string member `key` of the top-level object.
#[verifier::external_body]
pub(crate) fn str_member(text: &str, key: &str) -> (r: Result<Option<String>, serde_json::Error>)
    ensures
        r is Ok == json_parses(text@),
        r matches Ok(o) ==> o.deep_view() == json_str_member(text@, key@),
{
    let v: serde_json::Value = serde_json::from_str(text)?;
    Ok(v.get(key).and_then(|f| f.as_str()).map(|s| s.to_string()))
}

/// Relies on `serde_json::from_str` into a `Value`, then `Value::get` and
/// `Value::as_u64`: the unsigned integer member `key` of the top-level object.
#[verifier::external_body]
pub(crate) fn u64_member(text: &str, key: &str) -> (r: Result<Option<u64>, serde_json::Error>)
    ensures
        r is Ok == json_parses(text@),
        r matches Ok(o) ==> o == json_u64_member(text@, key@),
{
    let v: serde_json::Value = serde_json::from_str(text)?;
    Ok(v.get(key).and_then(|f| f.as_u64()))
}

/// Relies on `serde_json::from_str` into a `Value`, then `Value::as_array`,
/// `Value::get` and `Value::as_str`: the string member `key` of each element
/// of the top-level array.
#[verifier::external_body]
pub(crate) fn str_members(text: &str, key: &str) -> (r: Result<Option<Vec<String>>, serde_json::Error>)
    ensures
        r is Ok == json_parses(text@),
        r matches Ok(o) ==> o.deep_view() == json_str_members(text@, key@),
{
    let v: serde_json::Value = serde_json::from_str(text)?;
    Ok(v.as_array().and_then(|a| {
        a.iter().map(|e| e.get(key).and_then(|f| f.as_str()).map(|s| s.to_string())).collect()
    }))
}

/// What `String::from_utf8_lossy` makes of the bytes.
pub uninterp spec fn lossy_of(b: Seq<u8>) -> Seq<char>;

/// Relies on `String::from_utf8_lossy`: valid UTF-8 is decoded as it is, and
/// each invalid sequence becomes a replacement character.
#[verifier::external_body]
pub(crate) fn lossy_text(b: &Vec<u8>) -> (r: String)
    ensures
        r@ == lossy_of(b@),
        vstd::utf8::valid_utf8(b@) ==> r@ == vstd::utf8::decode_utf8(b@),
{
    String::from_utf8_lossy(b).into_owned()
}

/// Relies on `std::str::from_utf8`: the text, exactly when the bytes are valid UTF-8.
#[verifier::external_body]
pub(crate) fn utf8_text(b: &Vec<u8>) -> (r: Option<String>)
    ensures
        r is Some == vstd::utf8::valid_utf8(b@),
        r matches Some(s) ==> s@ == vstd::utf8::decode_utf8(b@),
{
    std::str::from_utf8(b).ok().map(|s| s.to_string())
}

} // verus!
