//! What the library reads out of JSON text, and how it quotes a string as
//! JSON — both done by serde_json.
use vstd::prelude::*;

verus! {

/// What serde_json reads for the field `key` of the JSON text `text`:
/// `None` when the text is not one JSON value; `Some(None)` when it is,
/// but has no field `key` holding a string; `Some(Some(v))` for the
/// string `v`.
pub uninterp spec fn json_str_field_of(text: Seq<char>, key: Seq<char>) -> Option<
    Option<Seq<char>>,
>;

/// The characters of an optional optional string.
pub open spec fn opt_opt_view(r: Option<Option<String>>) -> Option<Option<Seq<char>>> {
    match r {
        None => None,
        Some(None) => Some(None),
        Some(Some(s)) => Some(Some(s@)),
    }
}

/// One `"key":value` member of an object whose value serde_json quoted.
pub open spec fn member_text(k: Seq<char>, v: Seq<char>) -> Seq<char> {
    seq!['"'] + k + seq!['"', ':'] + json_quoted_of(v)
}

/// The members of an object, comma-separated.
pub open spec fn members_text(fs: Seq<(Seq<char>, Seq<char>)>) -> Seq<char>
    decreases fs.len(),
{
    if fs.len() == 0 {
        Seq::empty()
    } else if fs.len() == 1 {
        member_text(fs[0].0, fs[0].1)
    } else {
        members_text(fs.drop_last()) + seq![','] + member_text(fs.last().0, fs.last().1)
    }
}

/// The compact JSON object text with the string values `fs`, each quoted
/// as serde_json quotes a string.
pub open spec fn string_object(fs: Seq<(Seq<char>, Seq<char>)>) -> Seq<char> {
    seq!['{'] + members_text(fs) + seq!['}']
}

/// Keys that need no escaping (lower-case ASCII letters and `_`), none
/// twice.
pub open spec fn plain_keys(fs: Seq<(Seq<char>, Seq<char>)>) -> bool {
    &&& forall|i: int|
        0 <= i < fs.len() ==> (#[trigger] fs[i]).0.len() > 0 && forall|j: int|
            0 <= j < fs[i].0.len() ==> ('a' <= #[trigger] fs[i].0[j] <= 'z' || fs[i].0[j] == '_')
    &&& forall|i: int, j: int| 0 <= i < j < fs.len() ==> fs[i].0 != fs[j].0
}

/// `serde_json::from_str::<serde_json::Value>`, then `Value::get(key)` and
/// `Value::as_str` on the result. The contract names the result
/// ([`json_str_field_of`]), and says one thing of it: serde_json reads back
/// what it wrote, so an object whose plain keys hold strings that
/// serde_json quoted gives each string back under its key. Nothing else of
/// JSON's grammar is stated.
#[verifier::external_body]
pub fn json_str_field(text: &str, key: &str) -> (r: Option<Option<String>>)
    ensures
        opt_opt_view(r) == json_str_field_of(text@, key@),
        forall|fs: Seq<(Seq<char>, Seq<char>)>, i: int|
            #![trigger string_object(fs), fs[i]]
            text@ == string_object(fs) && plain_keys(fs) && 0 <= i < fs.len() && fs[i].0 == key@
                ==> opt_opt_view(r) == Some(Some(fs[i].1)),
{
    match serde_json::from_str::<serde_json::Value>(text) {
        Ok(v) => Some(v.get(key).and_then(|x| x.as_str()).map(|s| s.to_string())),
        Err(_) => None,
    }
}

/// What serde_json writes for a string value: the string between double
/// quotes, with its escapes.
pub uninterp spec fn json_quoted_of(s: Seq<char>) -> Seq<char>;

/// `serde_json::to_string` on a string. Serializing a `str` into memory
/// does not fail; the contract names the text ([`json_quoted_of`]).
#[verifier::external_body]
pub fn json_quoted(s: &str) -> (r: String)
    ensures
        r@ == json_quoted_of(s@),
{
    serde_json::to_string(s).unwrap_or_default()
}

} // verus!
