//! JSON values: what a [`Value`] holds, and the few operations the tools need.
//!
//! [`Value`] belongs to `serde_json` and is opaque here. What it holds is the tree
//! [`Json`], given by [`json_of`]; every function of this module that touches a value says what
//! it does to that tree.

use serde_json::Value;
use vstd::prelude::*;

verus! {

/// The tree that a JSON value holds.
///
/// Numbers come in two kinds, as `serde_json` keeps them: integers, and doubles, which are held
/// by their IEEE-754 bits and are always finite.
#[verifier::ext_equal]
pub enum Json {
    /// `null`
    Null,
    /// `true` or `false`
    Bool(bool),
    /// An integer.
    Int(int),
    /// A double, by its bits.
    Real(u64),
    /// A string.
    Str(Seq<char>),
    /// An array.
    Arr(Seq<Json>),
    /// An object.
    Obj(Map<Seq<char>, Json>),
}

/// `serde_json::Value`, opaque: [`json_of`] says what it holds.
#[verifier::external_type_specification]
#[verifier::external_body]
pub struct ExValue(serde_json::Value);

/// What `value` holds.
pub uninterp spec fn json_of(value: serde_json::Value) -> Json;

/// `Value::Null`, the constant.
#[verifier::external_body]
pub(crate) fn null() -> (value: Value)
    ensures
        json_of(value) == Json::Null,
{
    Value::Null
}

/// `Value::get` with a string index: the entry of an object under `key`, and nothing where
/// there is no such entry or the value is no object.
#[verifier::external_body]
pub(crate) fn get<'a>(value: &'a Value, key: &str) -> (entry: Option<&'a Value>)
    ensures
        match entry {
            Some(v) => json_of(*value) matches Json::Obj(m) && m.contains_key(key@) && json_of(*v) == m[key@],
            None => !(json_of(*value) matches Json::Obj(m) && m.contains_key(key@)),
        },
{
    value.get(key)
}

/// `value[key] = item`, which is `Value`'s `IndexMut`: the object's entry under `key` becomes
/// `item`, whether or not there was one before.
#[verifier::external_body]
pub(crate) fn put(value: &mut Value, key: &str, item: Value)
    requires
        json_of(*old(value)) is Obj,
    ensures
        json_of(*final(value)) == Json::Obj(json_of(*old(value))->Obj_0.insert(key@, json_of(item))),
{
    value[key] = item;
}

/// `Value::Object(Map::new())`: an object without entries.
#[verifier::external_body]
pub(crate) fn object() -> (value: Value)
    ensures
        json_of(value) == Json::Obj(Map::empty()),
{
    Value::Object(serde_json::Map::new())
}

/// `Value::from(u64)`: an integer.
#[verifier::external_body]
pub(crate) fn from_u64(n: u64) -> (value: Value)
    ensures
        json_of(value) == Json::Int(n as int),
{
    Value::from(n)
}

/// `Value::from(bool)`.
#[verifier::external_body]
pub(crate) fn from_bool(b: bool) -> (value: Value)
    ensures
        json_of(value) == Json::Bool(b),
{
    Value::from(b)
}

/// `Value::from(&str)`: a string with the same characters.
#[verifier::external_body]
pub(crate) fn from_str(s: &str) -> (value: Value)
    ensures
        json_of(value) == Json::Str(s@),
{
    Value::from(s)
}

/// `Value::from(Vec<Value>)`: an array of the same values in the same order.
#[verifier::external_body]
pub(crate) fn from_vec(items: Vec<Value>) -> (value: Value)
    ensures
        json_of(value) == Json::Arr(items@.map_values(|v: Value| json_of(v))),
{
    Value::from(items)
}

/// `Value::clone`: a value that holds the same tree.
#[verifier::external_body]
pub(crate) fn duplicate(value: &Value) -> (copy: Value)
    ensures
        json_of(copy) == json_of(*value),
{
    value.clone()
}

/// `Value::as_u64`: the number, where the value is an integer that is not negative.
#[verifier::external_body]
pub(crate) fn as_u64(value: &Value) -> (n: Option<u64>)
    ensures
        match n {
            Some(k) => json_of(*value) == Json::Int(k as int),
            None => !(json_of(*value) matches Json::Int(i) && 0 <= i),
        },
{
    value.as_u64()
}

/// `Value::as_str`: the characters, where the value is a string.
#[verifier::external_body]
pub(crate) fn as_str(value: &Value) -> (s: Option<&str>)
    ensures
        match s {
            Some(t) => json_of(*value) == Json::Str(t@),
            None => !(json_of(*value) is Str),
        },
{
    value.as_str()
}

/// `Value::is_null`: whether the value is `null`.
#[verifier::external_body]
pub(crate) fn is_null(value: &Value) -> (held: bool)
    ensures
        held == (json_of(*value) is Null),
{
    value.is_null()
}

/// `Value::is_f64`: whether the value is a number that is held as a double.
#[verifier::external_body]
pub(crate) fn is_f64(value: &Value) -> (held: bool)
    ensures
        held == (json_of(*value) is Real),
{
    value.is_f64()
}

/// `Value::as_f64`, the double taken by its bits: of a number that is held as a double, these
/// are its own. An integer has a double too; which one it is, is left unsaid.
#[verifier::external_body]
pub(crate) fn as_f64(value: &Value) -> (bits: Option<u64>)
    ensures
        json_of(*value) matches Json::Real(b) ==> bits == Some(b),
        bits is Some <==> json_of(*value) is Real || json_of(*value) is Int,
{
    value.as_f64().map(|x| x.to_bits())
}

/// The entry of `json` under `key`, where it is an object that has one.
pub open spec fn entry(json: Json, key: Seq<char>) -> Option<Json> {
    match json {
        Json::Obj(m) => if m.contains_key(key) {
            Some(m[key])
        } else {
            None
        },
        _ => None,
    }
}

/// The string that `json` holds under `key`, where it holds one.
pub open spec fn text_entry(json: Json, key: Seq<char>) -> Option<Seq<char>> {
    match entry(json, key) {
        Some(Json::Str(text)) => Some(text),
        _ => None,
    }
}

/// The integer that `json` holds under `key`, where it holds one that is not negative.
pub open spec fn count_entry(json: Json, key: Seq<char>) -> Option<int> {
    match entry(json, key) {
        Some(Json::Int(n)) => if n >= 0 {
            Some(n)
        } else {
            None
        },
        _ => None,
    }
}

/// The string that `value` holds under `key`, where it holds one.
pub fn get_text<'a>(value: &'a Value, key: &str) -> (text: Option<&'a str>)
    ensures
        match text {
            Some(t) => text_entry(json_of(*value), key@) == Some(t@),
            None => text_entry(json_of(*value), key@) is None,
        },
{
    match get(value, key) {
        Some(item) => as_str(item),
        None => None,
    }
}

/// The integer that `value` holds under `key`, where it holds one that is not negative.
pub fn get_count(value: &Value, key: &str) -> (n: Option<u64>)
    ensures
        match n {
            Some(k) => count_entry(json_of(*value), key@) == Some(k as int),
            None => count_entry(json_of(*value), key@) is None,
        },
{
    match get(value, key) {
        Some(item) => as_u64(item),
        None => None,
    }
}

/// The integer `n`, or `null` where there is none.
pub open spec fn optional_int(n: Option<u32>) -> Json {
    match n {
        Some(k) => Json::Int(k as int),
        None => Json::Null,
    }
}

/// The integer `n`, or `null` where there is none.
pub(crate) fn from_optional(n: Option<u32>) -> (value: Value)
    ensures
        json_of(value) == optional_int(n),
{
    match n {
        Some(k) => from_u64(k as u64),
        None => null(),
    }
}

/// The strings `texts` as an array.
pub open spec fn strings(texts: Seq<Seq<char>>) -> Json {
    Json::Arr(texts.map_values(|t: Seq<char>| Json::Str(t)))
}

/// What the strings of `texts` hold.
pub open spec fn views(texts: Seq<String>) -> Seq<Seq<char>> {
    texts.map_values(|t: String| t@)
}

/// An array of the first strings of `texts`, `limit` of them at most.
pub(crate) fn from_strings(texts: &Vec<String>, limit: usize) -> (value: Value)
    ensures
        json_of(value) == strings(views(first(texts@, limit as int))),
{
    let count: usize = if texts.len() < limit { texts.len() } else { limit };
    let mut items: Vec<Value> = Vec::new();
    for i in 0..count
        invariant
            items.len() == i,
            count <= texts.len(),
            forall|j: int| 0 <= j < i ==> json_of(#[trigger] items[j]) == Json::Str(texts[j]@),
    {
        items.push(from_str(texts[i].as_str()));
    }
    proof {
        assert(items@.map_values(|v: Value| json_of(v)) =~= views(first(texts@, limit as int)).map_values(
            |t: Seq<char>| Json::Str(t),
        ));
    }
    from_vec(items)
}

/// The first `limit` entries of `s`, or all of them where there are fewer.
pub open spec fn first<T>(s: Seq<T>, limit: int) -> Seq<T> {
    if s.len() <= limit {
        s
    } else {
        s.take(limit)
    }
}

/// The text that is read under a key is the one that stands there, and none is read where there is
/// no text.
pub proof fn texts_are_read_where_they_stand(json: Json, key: Seq<char>, text: Seq<char>)
    ensures
        text_entry(json, key) == Some(text) <==> (json is Obj && json->Obj_0.contains_key(key)
            && json->Obj_0[key] == Json::Str(text)),
{
}

/// The count that is read under a key is the integer that stands there, and none is read where there
/// is no integer or a negative one.
pub proof fn counts_are_read_where_they_stand(json: Json, key: Seq<char>, n: int)
    ensures
        count_entry(json, key) == Some(n) <==> (json is Obj && json->Obj_0.contains_key(key)
            && json->Obj_0[key] == Json::Int(n) && n >= 0),
{
}

/// The first entries are those in front, in their order, as many as there are up to the limit.
pub proof fn first_are_those_in_front<T>(s: Seq<T>, limit: int)
    requires
        limit >= 0,
    ensures
        first(s, limit).len() == if s.len() < limit {
            s.len() as int
        } else {
            limit
        },
        forall|i: int| 0 <= i < first(s, limit).len() ==> #[trigger] first(s, limit)[i] == s[i],
{
}

/// An array of texts holds each of them in its place.
pub proof fn strings_hold_each_text(texts: Seq<Seq<char>>)
    ensures
        strings(texts) is Arr,
        strings(texts)->Arr_0.len() == texts.len(),
        forall|i: int|
            0 <= i < texts.len() ==> #[trigger] strings(texts)->Arr_0[i] == Json::Str(texts[i]),
{
}

/// A number that may be missing is shown as itself, and as `null` where it is missing.
pub proof fn missing_numbers_are_null(n: Option<u32>)
    ensures
        n matches Some(k) ==> optional_int(n) == Json::Int(k as int),
        n is None ==> optional_int(n) == Json::Null,
{
}

} // verus!
