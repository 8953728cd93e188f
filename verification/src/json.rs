//! JSON values, as `serde_json` holds, reads and writes them.

use vstd::prelude::*;

use crate::text;

verus! {

/// `serde_json::Value`: any JSON value.
#[verifier::external_type_specification]
#[verifier::external_body]
pub struct ExValue(serde_json::Value);

/// What a JSON value is. Numbers with a fraction or an exponent are not told
/// apart.
pub enum Json {
    Null,
    Bool(bool),
    Whole(int),
    Fraction,
    Text(Seq<char>),
    List(Seq<Json>),
    Object(Map<Seq<char>, Json>),
}

impl Json {
    /// The member of an object under the key; none for any other value.
    pub open spec fn member(self, key: Seq<char>) -> Option<Json> {
        match self {
            Json::Object(members) => members.get(key),
            _ => None,
        }
    }

    /// The member of an object under the key, where it is a text.
    pub open spec fn text(self, key: Seq<char>) -> Option<Seq<char>> {
        match self.member(key) {
            Some(Json::Text(s)) => Some(s),
            _ => None,
        }
    }

    /// The member of an object under the key, where it is a list.
    pub open spec fn list(self, key: Seq<char>) -> Option<Seq<Json>> {
        match self.member(key) {
            Some(Json::List(list)) => Some(list),
            _ => None,
        }
    }

    /// At most `depth` lists and objects stand inside one another, and no number
    /// has a fraction or an exponent.
    pub open spec fn readable(self, depth: nat) -> bool
        decreases depth,
    {
        match self {
            Json::Fraction => false,
            Json::List(list) => depth > 0 && forall|i: int|
                0 <= i < list.len() ==> (#[trigger] list[i]).readable((depth - 1) as nat),
            Json::Object(members) => depth > 0 && forall|k: Seq<char>|
                members.contains_key(k) ==> (#[trigger] members[k]).readable((depth - 1) as nat),
            _ => true,
        }
    }
}

/// The most lists and objects that are read inside one another.
pub const MAX_DEPTH: usize = 127;

/// What a `serde_json::Value` holds.
pub uninterp spec fn json_of(v: serde_json::Value) -> Json;

/// The bytes that `serde_json::to_vec` writes for a value.
pub uninterp spec fn json_bytes(v: serde_json::Value) -> Seq<u8>;

pub open spec fn parsed_view(r: Result<serde_json::Value, String>) -> Result<Json, Seq<char>> {
    match r {
        Ok(v) => Ok(json_of(v)),
        Err(e) => Err(e@),
    }
}

/// What `serde_json::from_str` reports of a text: the value, or the message of
/// the error.
pub uninterp spec fn json_parse(text: Seq<char>) -> Result<Json, Seq<char>>;

/// What `serde_json::from_slice` reports of bytes: the value, or the message of
/// the error.
pub uninterp spec fn json_parse_bytes(bytes: Seq<u8>) -> Result<Json, Seq<char>>;

/// What `serde_json::from_str` reports of a text read as an object of texts:
/// its members, or the message of the error.
pub uninterp spec fn json_table(text: Seq<char>) -> Result<Map<Seq<char>, Seq<char>>, Seq<char>>;

/// `serde_json::from_str` into a value; an error is given by its message. The
/// result depends on the text alone.
#[verifier::external_body]
pub(crate) fn parse_json(text: &str) -> (r: Result<serde_json::Value, String>)
    ensures
        parsed_view(r) == json_parse(text@),
{
    serde_json::from_str(text).map_err(|e| e.to_string())
}

/// `serde_json::from_slice` into a value; an error is given by its message.
/// The result depends on the bytes alone.
#[verifier::external_body]
pub(crate) fn parse_json_bytes(bytes: &[u8]) -> (r: Result<serde_json::Value, String>)
    ensures
        parsed_view(r) == json_parse_bytes(bytes@),
{
    serde_json::from_slice(bytes).map_err(|e| e.to_string())
}

/// `serde_json::to_vec` of a value: it succeeds, as the keys of an object are
/// texts and a vector takes every byte, and the bytes depend on the value
/// alone. `serde_json::from_slice` reads the bytes of a value without fractions
/// back, unless lists and objects are nested too deep for it; what it reads
/// back is what was written. Of fractions only that they stay fractions is
/// claimed, where the bytes are read back at all.
#[verifier::external_body]
pub(crate) fn write_json(v: &serde_json::Value) -> (r: Result<Vec<u8>, String>)
    ensures
        r is Ok,
        r matches Ok(b) ==> b@ == json_bytes(*v),
        r matches Ok(b) ==> json_of(*v).readable(MAX_DEPTH as nat) ==> json_parse_bytes(b@) is Ok,
        r matches Ok(b) ==> (json_parse_bytes(b@) matches Ok(back) ==> back == json_of(*v)),
{
    serde_json::to_vec(v).map_err(|e| e.to_string())
}

/// `serde_json::Value::get` and `serde_json::Value::as_str`: the member of an
/// object under the key, where it is a text.
#[verifier::external_body]
pub(crate) fn text_at<'a>(v: &'a serde_json::Value, key: &str) -> (r: Option<&'a str>)
    ensures
        text::str_view(r) == json_of(*v).text(key@),
{
    v.get(key).and_then(serde_json::Value::as_str)
}

/// `serde_json::Value::get` and `serde_json::Value::as_array`: the member of an
/// object under the key, where it is a list.
#[verifier::external_body]
pub(crate) fn list_at<'a>(v: &'a serde_json::Value, key: &str) -> (r: Option<
    &'a Vec<serde_json::Value>,
>)
    ensures
        items_view(r) == json_of(*v).list(key@),
{
    v.get(key).and_then(serde_json::Value::as_array)
}

pub open spec fn items_view(r: Option<&Vec<serde_json::Value>>) -> Option<Seq<Json>> {
    match r {
        Some(list) => Some(Seq::new(list@.len(), |i: int| json_of(list@[i]))),
        None => None,
    }
}

/// The table that a list of keys and texts makes, a later text for a key
/// replacing an earlier one.
pub open spec fn table_of(list: Seq<(String, String)>) -> Map<Seq<char>, Seq<char>>
    decreases list.len(),
{
    if list.len() == 0 {
        Map::empty()
    } else {
        table_of(list.drop_last()).insert(list.last().0@, list.last().1@)
    }
}

pub open spec fn table_view(r: Result<Vec<(String, String)>, String>) -> Result<
    Map<Seq<char>, Seq<char>>,
    Seq<char>,
> {
    match r {
        Ok(list) => Ok(table_of(list@)),
        Err(e) => Err(e@),
    }
}

/// `serde_json::from_str` into a `HashMap` of texts, handed out as a list with
/// each key once; an error is given by its message. Which keys and texts come
/// out depends on the text alone; nothing is claimed of their order.
#[verifier::external_body]
pub(crate) fn parse_table(text: &str) -> (r: Result<Vec<(String, String)>, String>)
    ensures
        table_view(r) == json_table(text@),
{
    match serde_json::from_str::<std::collections::HashMap<String, String>>(text) {
        Ok(table) => Ok(table.into_iter().collect()),
        Err(e) => Err(e.to_string()),
    }
}

/// A later text for a key replaces an earlier one, and every other key keeps its
/// text.
pub proof fn later_text_counts(list: Seq<(String, String)>, key: String, text: String)
    ensures
        table_of(list.push((key, text))).get(key@) == Some(text@),
        forall|other: Seq<char>|
            other != key@ ==> #[trigger] table_of(list.push((key, text))).get(other) == table_of(
                list,
            ).get(other),
        table_of(Seq::empty()) == Map::<Seq<char>, Seq<char>>::empty(),
{
    assert(list.push((key, text)).drop_last() =~= list);
    assert(list.push((key, text)).last() == (key, text));
}

} // verus!
