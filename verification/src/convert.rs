//! Conversions into [`Value`] from the native types that it can hold.

use std::collections::HashMap;
use vstd::prelude::*;
use vstd::slice::slice_to_vec;
use vstd::std_specs::convert::FromSpecImpl;
use vstd::string::StrSliceExecFns;
use vstd::utf8::encode_utf8;
use crate::entries::{keys_distinct, lemma_collected};
use crate::model::{has_key, keys_ascending, lookup, Datum};
use crate::value::{lemma_list_view, pair_views, views, Dict, Value};

verus! {

impl From<i64> for Value {
    fn from(v: i64) -> (r: Value) {
        Value::Int(v)
    }
}

impl FromSpecImpl<i64> for Value {
    open spec fn obeys_from_spec() -> bool {
        true
    }

    open spec fn from_spec(v: i64) -> Value {
        Value::Int(v)
    }
}

impl From<u8> for Value {
    fn from(v: u8) -> (r: Value) {
        Value::Int(v as i64)
    }
}

impl FromSpecImpl<u8> for Value {
    open spec fn obeys_from_spec() -> bool {
        true
    }

    open spec fn from_spec(v: u8) -> Value {
        Value::Int(v as i64)
    }
}

impl From<u16> for Value {
    fn from(v: u16) -> (r: Value) {
        Value::Int(v as i64)
    }
}

impl FromSpecImpl<u16> for Value {
    open spec fn obeys_from_spec() -> bool {
        true
    }

    open spec fn from_spec(v: u16) -> Value {
        Value::Int(v as i64)
    }
}

impl From<u32> for Value {
    fn from(v: u32) -> (r: Value) {
        Value::Int(v as i64)
    }
}

impl FromSpecImpl<u32> for Value {
    open spec fn obeys_from_spec() -> bool {
        true
    }

    open spec fn from_spec(v: u32) -> Value {
        Value::Int(v as i64)
    }
}

impl From<u64> for Value {
    fn from(v: u64) -> (r: Value) {
        Value::Int(v as i64)
    }
}

impl FromSpecImpl<u64> for Value {
    open spec fn obeys_from_spec() -> bool {
        true
    }

    open spec fn from_spec(v: u64) -> Value {
        Value::Int(v as i64)
    }
}

impl From<usize> for Value {
    fn from(v: usize) -> (r: Value) {
        Value::Int(v as i64)
    }
}

impl FromSpecImpl<usize> for Value {
    open spec fn obeys_from_spec() -> bool {
        true
    }

    open spec fn from_spec(v: usize) -> Value {
        Value::Int(v as i64)
    }
}

impl From<i8> for Value {
    fn from(v: i8) -> (r: Value) {
        Value::Int(v as i64)
    }
}

impl FromSpecImpl<i8> for Value {
    open spec fn obeys_from_spec() -> bool {
        true
    }

    open spec fn from_spec(v: i8) -> Value {
        Value::Int(v as i64)
    }
}

impl From<i16> for Value {
    fn from(v: i16) -> (r: Value) {
        Value::Int(v as i64)
    }
}

impl FromSpecImpl<i16> for Value {
    open spec fn obeys_from_spec() -> bool {
        true
    }

    open spec fn from_spec(v: i16) -> Value {
        Value::Int(v as i64)
    }
}

impl From<i32> for Value {
    fn from(v: i32) -> (r: Value) {
        Value::Int(v as i64)
    }
}

impl FromSpecImpl<i32> for Value {
    open spec fn obeys_from_spec() -> bool {
        true
    }

    open spec fn from_spec(v: i32) -> Value {
        Value::Int(v as i64)
    }
}

impl From<isize> for Value {
    fn from(v: isize) -> (r: Value) {
        Value::Int(v as i64)
    }
}

impl FromSpecImpl<isize> for Value {
    open spec fn obeys_from_spec() -> bool {
        true
    }

    open spec fn from_spec(v: isize) -> Value {
        Value::Int(v as i64)
    }
}

impl From<Vec<u8>> for Value {
    fn from(v: Vec<u8>) -> (r: Value) {
        Value::Text(v)
    }
}

impl FromSpecImpl<Vec<u8>> for Value {
    open spec fn obeys_from_spec() -> bool {
        true
    }

    open spec fn from_spec(v: Vec<u8>) -> Value {
        Value::Text(v)
    }
}

impl From<Vec<Value>> for Value {
    fn from(v: Vec<Value>) -> (r: Value) {
        Value::List(v)
    }
}

impl FromSpecImpl<Vec<Value>> for Value {
    open spec fn obeys_from_spec() -> bool {
        true
    }

    open spec fn from_spec(v: Vec<Value>) -> Value {
        Value::List(v)
    }
}

impl From<Dict> for Value {
    fn from(v: Dict) -> (r: Value) {
        Value::Dict(v)
    }
}

impl FromSpecImpl<Dict> for Value {
    open spec fn obeys_from_spec() -> bool {
        true
    }

    open spec fn from_spec(v: Dict) -> Value {
        Value::Dict(v)
    }
}

/// A copy of the bytes is made: the result is stated by its view.
impl From<&[u8]> for Value {
    fn from(v: &[u8]) -> (r: Value)
        ensures
            r@ == Datum::Text(v@),
    {
        Value::Text(slice_to_vec(v))
    }
}

impl FromSpecImpl<&[u8]> for Value {
    open spec fn obeys_from_spec() -> bool {
        false
    }

    open spec fn from_spec(v: &[u8]) -> Value {
        choose|r: Value| r@ == Datum::Text(v@)
    }
}

/// The text holds the UTF-8 bytes of the string.
impl From<&str> for Value {
    fn from(v: &str) -> (r: Value)
        ensures
            r@ == Datum::Text(encode_utf8(v@)),
    {
        Value::Text(v.as_bytes_vec())
    }
}

impl FromSpecImpl<&str> for Value {
    open spec fn obeys_from_spec() -> bool {
        false
    }

    open spec fn from_spec(v: &str) -> Value {
        choose|r: Value| r@ == Datum::Text(encode_utf8(v@))
    }
}

/// The text holds the UTF-8 bytes of the string.
impl From<String> for Value {
    fn from(v: String) -> (r: Value)
        ensures
            r@ == Datum::Text(encode_utf8(v@)),
    {
        Value::Text(v.as_str().as_bytes_vec())
    }
}

impl FromSpecImpl<String> for Value {
    open spec fn obeys_from_spec() -> bool {
        false
    }

    open spec fn from_spec(v: String) -> Value {
        choose|r: Value| r@ == Datum::Text(encode_utf8(v@))
    }
}

/// A copy of each item is made: the result is stated by its view.
impl From<&[Value]> for Value {
    fn from(v: &[Value]) -> (r: Value)
        ensures
            r@ == Datum::List(views(v@)),
    {
        let mut items: Vec<Value> = Vec::new();
        let mut i: usize = 0;
        while i < v.len()
            invariant
                i <= v.len(),
                items.len() == i,
                forall|j: int| 0 <= j < i ==> (#[trigger] items@[j])@ == v@[j]@,
            decreases v.len() - i,
        {
            items.push(v[i].clone());
            i += 1;
        }
        let r = Value::List(items);
        proof {
            lemma_list_view(r);
            assert(r@->List_0 =~= views(v@));
        }
        r
    }
}

impl FromSpecImpl<&[Value]> for Value {
    open spec fn obeys_from_spec() -> bool {
        false
    }

    open spec fn from_spec(v: &[Value]) -> Value {
        choose|r: Value| r@ == Datum::List(views(v@))
    }
}

/// `HashMap::into_iter`, gathered into a vector: the pairs of the map, each
/// once, in an order that is not told. No two of them have the same key.
#[verifier::external_body]
fn pairs_of(map: HashMap<String, Value>) -> (pairs: Vec<(String, Value)>)
    ensures
        forall|i: int, j: int|
            0 <= i < j < pairs@.len() ==> (#[trigger] pairs@[i]).0@ != (#[trigger] pairs@[j]).0@,
        forall|i: int|
            0 <= i < pairs@.len() ==> map@.contains_key((#[trigger] pairs@[i]).0) && map@[pairs@[i].0]
                == pairs@[i].1,
        forall|key: String| #[trigger]
            map@.contains_key(key) ==> exists|i: int|
                0 <= i < pairs@.len() && (#[trigger] pairs@[i]).0 == key,
{
    map.into_iter().collect()
}

/// The dictionary holds the pairs of the map, sorted by their keys: each
/// key of the map with its value, and no other key.
impl From<HashMap<String, Value>> for Value {
    fn from(v: HashMap<String, Value>) -> (r: Value)
        ensures
            r@ matches Datum::Dict(entries) && keys_ascending(entries) && (forall|key: String| #[trigger]
                v@.contains_key(key) ==> lookup(entries, key@) == Some(v@[key]@)) && (forall|
                name: Seq<char>,
            | #[trigger]
                has_key(entries, name) ==> exists|key: String| #[trigger]
                    v@.contains_key(key) && key@ == name),
    {
        let pairs = pairs_of(v);
        let ghost held = pair_views(pairs@);
        let dict = Dict::from_pairs(pairs);
        proof {
            assert(keys_distinct(held)) by {
                assert forall|i: int, j: int| 0 <= i < j < held.len() implies (#[trigger] held[i]).0
                    != (#[trigger] held[j]).0 by {
                    assert(pairs@[i].0@ != pairs@[j].0@);
                }
            }
            lemma_collected(held, held.len());
            assert forall|key: String| #[trigger] v@.contains_key(key) implies lookup(dict@, key@)
                == Some(v@[key]@) by {
                let i = choose|i: int| 0 <= i < pairs@.len() && (#[trigger] pairs@[i]).0 == key;
                assert(held[i] == (pairs@[i].0@, pairs@[i].1@));
                assert(v@.contains_key(pairs@[i].0) && v@[pairs@[i].0] == pairs@[i].1);
            }
            assert forall|name: Seq<char>| #[trigger] has_key(dict@, name) implies exists|
                key: String,
            | #[trigger] v@.contains_key(key) && key@ == name by {
                let i = choose|i: int| 0 <= i < held.len() && (#[trigger] held[i]).0 == name;
                assert(held[i] == (pairs@[i].0@, pairs@[i].1@));
                assert(v@.contains_key(pairs@[i].0));
            }
        }
        Value::Dict(dict)
    }
}

impl FromSpecImpl<HashMap<String, Value>> for Value {
    open spec fn obeys_from_spec() -> bool {
        false
    }

    open spec fn from_spec(v: HashMap<String, Value>) -> Value {
        choose|r: Value| r@ is Dict
    }
}

} // verus!
