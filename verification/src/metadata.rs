use vstd::prelude::*;

verus! {

broadcast use vstd::string::group_string_axioms;

/// The standard (RFC 4648, padded) Base64 text of `bytes`, as
/// `base64::prelude::BASE64_STANDARD` encodes it.
pub uninterp spec fn base64_standard(bytes: Seq<u8>) -> Seq<char>;

/// A character of the standard Base64 alphabet, or the padding `=`.
pub open spec fn is_base64_char(c: char) -> bool {
    ('A' <= c && c <= 'Z') || ('a' <= c && c <= 'z') || ('0' <= c && c <= '9') || c == '+' || c == '/' || c == '='
}

/// Calls `base64::Engine::encode` with `BASE64_STANDARD`. Trusted: the
/// result is the text named `base64_standard`, made only of the standard
/// alphabet and padding.
#[verifier::external_body]
fn base64_encode(bytes: &[u8]) -> (text: String)
    ensures
        text@ == base64_standard(bytes@),
        forall|i: int| 0 <= i < text@.len() ==> is_base64_char(#[trigger] text@[i]),
{
    base64::Engine::encode(&base64::prelude::BASE64_STANDARD, bytes)
}

/// A character that JSON strings hold as is: not a quote, not a backslash,
/// not a control character.
pub open spec fn json_plain_char(c: char) -> bool {
    c != '"' && c != '\\' && (c as u32) >= 0x20
}

pub open spec fn json_plain(s: Seq<char>) -> bool {
    forall|i: int| 0 <= i < s.len() ==> json_plain_char(#[trigger] s[i])
}

/// Compact JSON text of an object with one string entry, for a key and a
/// value that need no escaping: `{"key":"value"}`.
pub open spec fn plain_json_object(key: Seq<char>, value: Seq<char>) -> Seq<char> {
    seq!['{', '"'] + key + seq!['"', ':', '"'] + value + seq!['"', '}']
}

/// The compact JSON text that `serde_json` writes for an object with the
/// single entry `key: value` (a JSON string).
pub uninterp spec fn json_object_with_string(key: Seq<char>, value: Seq<char>) -> Seq<char>;

/// Builds a `serde_json::Value::Object` with one string entry and calls its
/// `to_string` (compact form). Trusted: the text is the one named
/// `json_object_with_string`; when neither key nor value holds a character
/// that JSON escapes (quote, backslash, control characters), it is
/// `{"key":"value"}`, as the crate's compact formatter writes it.
#[verifier::external_body]
fn json_object_string_entry(key: &String, value: &String) -> (json: String)
    ensures
        json@ == json_object_with_string(key@, value@),
        json_plain(key@) && json_plain(value@) ==> json@ == plain_json_object(key@, value@),
{
    let mut object = serde_json::Map::new();
    object.insert(key.clone(), serde_json::Value::String(value.clone()));
    serde_json::Value::Object(object).to_string()
}

/// Key under which the archive metadata holds the tiles' Arrow schema.
pub open spec fn schema_key() -> Seq<char> {
    seq!['a', 'r', 'r', 'o', 'w', '_', 's', 'c', 'h', 'e', 'm', 'a']
}

/// The archive metadata: a JSON object whose entry `arrow_schema` holds the
/// Base64 text of the Arrow IPC schema message shared by all tiles.
pub fn schema_metadata(schema_message: &Vec<u8>) -> (json: String)
    ensures
        json@ == plain_json_object(schema_key(), base64_standard(schema_message@)),
{
    let encoded = base64_encode(schema_message.as_slice());
    proof {
        reveal_strlit("arrow_schema");
    }
    let key = "arrow_schema".to_string();
    proof {
        assert(key@ =~= schema_key());
        assert forall|i: int| 0 <= i < encoded@.len() implies json_plain_char(#[trigger] encoded@[i]) by {
            assert(is_base64_char(encoded@[i]));
        }
    }
    json_object_string_entry(&key, &encoded)
}

} // verus!
