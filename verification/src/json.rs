//! JSON documents as the provider logic reads them, and the lenient lookups
//! it makes: a missing field, an index past the end or a value of the wrong
//! kind reads as `null`.

use vstd::prelude::*;
use vstd::string::*;

verus! {

/// A JSON value. A number is held as what it reads as an unsigned 64-bit
/// integer: `None` for negative, fractional or larger numbers. An object
/// holds its entries in order, each key once.
#[derive(Debug)]
pub enum Json {
    Null,
    Bool(bool),
    Number(Option<u64>),
    Text(String),
    Array(Vec<Json>),
    Object(Vec<(String, Json)>),
}

/// The value of the first entry with key `key`, or `null`.
pub open spec fn entry_value(entries: Seq<(String, Json)>, key: Seq<char>) -> Json
    decreases entries.len(),
{
    if entries.len() == 0 {
        Json::Null
    } else if entries[0].0@ == key {
        entries[0].1
    } else {
        entry_value(entries.drop_first(), key)
    }
}

/// `value[key]`: the field of an object, or `null`.
pub open spec fn field(value: Json, key: Seq<char>) -> Json {
    match value {
        Json::Object(entries) => entry_value(entries@, key),
        _ => Json::Null,
    }
}

/// `value[i]`: the element of an array, or `null`.
pub open spec fn element(value: Json, i: int) -> Json {
    match value {
        Json::Array(items) => if 0 <= i < items@.len() {
            items@[i]
        } else {
            Json::Null
        },
        _ => Json::Null,
    }
}

/// The string held by a JSON string.
pub open spec fn text_of(value: Json) -> Option<Seq<char>> {
    match value {
        Json::Text(s) => Some(s@),
        _ => None,
    }
}

/// The unsigned integer held by a JSON number.
pub open spec fn count_of(value: Json) -> Option<u64> {
    match value {
        Json::Number(n) => n,
        _ => None,
    }
}

/// The elements of a JSON array.
pub open spec fn elements_of(value: Json) -> Option<Seq<Json>> {
    match value {
        Json::Array(items) => Some(items@),
        _ => None,
    }
}

/// A looked-up value, where `None` stands for `null`.
pub open spec fn found(value: Option<&Json>) -> Json {
    match value {
        Some(v) => *v,
        None => Json::Null,
    }
}

/// `value[key]`.
pub fn get_field<'a>(value: Option<&'a Json>, key: &str) -> (r: Option<&'a Json>)
    ensures
        found(r) == field(found(value), key@),
{
    match value {
        Some(Json::Object(entries)) => {
            let key_text = String::from_str(key);
            let mut i: usize = 0;
            assert(entries@.skip(0) =~= entries@);
            while i < entries.len()
                invariant
                    i <= entries@.len(),
                    key_text@ == key@,
                    field(found(value), key@) == entry_value(entries@, key@),
                    entry_value(entries@, key@) == entry_value(entries@.skip(i as int), key@),
                decreases entries@.len() - i,
            {
                assert(entries@.skip(i as int).drop_first() =~= entries@.skip(i + 1));
                if entries[i].0 == key_text {
                    assert(entries@.skip(i as int)[0] == entries@[i as int]);
                    assert(entry_value(entries@.skip(i as int), key@) == entries@[i as int].1);
                    return Some(&entries[i].1);
                }
                i = i + 1;
            }
            None
        },
        _ => None,
    }
}

/// `value[i]`.
pub fn get_element<'a>(value: Option<&'a Json>, i: usize) -> (r: Option<&'a Json>)
    ensures
        found(r) == element(found(value), i as int),
{
    match value {
        Some(Json::Array(items)) => {
            if i < items.len() {
                Some(&items[i])
            } else {
                None
            }
        },
        _ => None,
    }
}

/// The string held by a JSON string.
pub fn as_text(value: Option<&Json>) -> (r: Option<&String>)
    ensures
        match r {
            Some(s) => text_of(found(value)) == Some(s@),
            None => text_of(found(value)) is None,
        },
{
    match value {
        Some(Json::Text(s)) => Some(s),
        _ => None,
    }
}

/// The unsigned integer held by a JSON number.
pub fn as_count(value: Option<&Json>) -> (r: Option<u64>)
    ensures
        r == count_of(found(value)),
{
    match value {
        Some(Json::Number(n)) => *n,
        _ => None,
    }
}

/// The elements of a JSON array.
pub fn as_elements(value: Option<&Json>) -> (r: Option<&Vec<Json>>)
    ensures
        match r {
            Some(items) => elements_of(found(value)) == Some(items@),
            None => elements_of(found(value)) is None,
        },
{
    match value {
        Some(Json::Array(items)) => Some(items),
        _ => None,
    }
}

} // verus!
