//! Bencode data types: [`Value`], with [`List`] and [`Dict`].

use vstd::prelude::*;
use core::str::Utf8Error;
use vstd::utf8::{decode_utf8, encode_utf8, encode_utf8_decode_utf8, valid_utf8};
use crate::entries::{
    lemma_key_at_rank, lemma_keys_differ_or_same, lemma_lookup_at, lemma_lookup_none,
    lemma_rank_split, lemma_with_entry_ascending,
};
use crate::model::{
    collected, has_key, key_lt, keys_ascending, lookup, put, rank, with_entry, without, Datum,
    Entries,
};
use crate::order::{compare, lemma_key_bytes_injective, lemma_key_order, Place};

verus! {

/// A list of bencode values.
pub type List = Vec<Value>;

/// Any datum that can be written as bencode and read back.
#[derive(Debug, PartialEq, Eq)]
pub enum Value {
    /// A 64-bit signed integer.
    Int(i64),
    /// A string of bytes that may or may not be valid UTF-8.
    Text(Vec<u8>),
    /// A list of values, in order.
    List(List),
    /// A map from UTF-8 keys to values, sorted by the bytes of the keys.
    Dict(Dict),
}

/// A map from UTF-8 keys to values that is always sorted by the bytes of its
/// keys, and so holds no key twice.
#[derive(Debug, PartialEq, Eq)]
pub struct Dict {
    entries: Vec<(String, Value)>,
}

impl View for Value {
    type V = Datum;

    open spec fn view(&self) -> Datum
        decreases self,
    {
        match self {
            Value::Int(n) => Datum::Int(*n),
            Value::Text(t) => Datum::Text(t@),
            Value::List(items) => Datum::List(
                Seq::new(
                    items@.len(),
                    |i: int|
                        if 0 <= i < items@.len() {
                            items@[i].view()
                        } else {
                            Datum::Int(0)
                        },
                ),
            ),
            Value::Dict(dict) => Datum::Dict(dict.view()),
        }
    }
}

impl View for Dict {
    type V = Entries;

    /// The entries in ascending order of their keys.
    closed spec fn view(&self) -> Entries
        decreases self,
    {
        Seq::new(
            self.entries@.len(),
            |i: int|
                if 0 <= i < self.entries@.len() {
                    (self.entries@[i].0@, self.entries@[i].1.view())
                } else {
                    (Seq::empty(), Datum::Int(0))
                },
        )
    }
}

/// The views of `items`, in order.
pub open spec fn views(items: Seq<Value>) -> Seq<Datum> {
    Seq::new(items.len(), |i: int| items[i]@)
}

/// The views of `pairs`, in order: of each key and of each value.
pub open spec fn pair_views(pairs: Seq<(String, Value)>) -> Entries {
    Seq::new(pairs.len(), |i: int| (pairs[i].0@, pairs[i].1@))
}

/// The view of a list holds the views of its items, in order.
pub proof fn lemma_list_view(v: Value)
    requires
        v is List,
    ensures
        v@ == Datum::List(views(v->List_0@)),
        v@->List_0.len() == v->List_0@.len(),
        forall|i: int| 0 <= i < v->List_0@.len() ==> (#[trigger] v@->List_0[i]) == v->List_0@[i]@,
{
    reveal_with_fuel(<Value as View>::view, 2);
    assert(v@->List_0 =~= views(v->List_0@));
}

/// The view of the stored entries.
proof fn lemma_dict_view(d: Dict)
    ensures
        d@.len() == d.entries@.len(),
        forall|i: int|
            0 <= i < d.entries@.len() ==> (#[trigger] d@[i]) == (
                d.entries@[i].0@,
                d.entries@[i].1@,
            ),
{
    reveal_with_fuel(<Dict as View>::view, 2);
}

impl Dict {
    #[verifier::type_invariant]
    spec fn sorted(self) -> bool {
        keys_ascending(self@)
    }
}

/// A copy of `v`.
fn copy_value(v: &Value) -> (r: Value)
    ensures
        r@ == v@,
    decreases v, 0nat,
{
    match v {
        Value::Int(n) => Value::Int(*n),
        Value::Text(t) => Value::Text(t.clone()),
        Value::List(items) => {
            let mut copies: Vec<Value> = Vec::new();
            let mut i: usize = 0;
            while i < items.len()
                invariant
                    i <= items.len(),
                    copies.len() == i,
                    v is List,
                    v->List_0 == *items,
                    forall|j: int| 0 <= j < i ==> (#[trigger] copies@[j])@ == items@[j]@,
                decreases items.len() - i,
            {
                assert(decreases_to!(*v => v->List_0));
                copies.push(copy_value(&items[i]));
                i += 1;
            }
            let r = Value::List(copies);
            proof {
                lemma_list_view(r);
                lemma_list_view(*v);
                assert(r@->List_0 =~= v@->List_0);
            }
            r
        },
        Value::Dict(dict) => Value::Dict(copy_dict(dict)),
    }
}

/// A copy of `d`.
fn copy_dict(d: &Dict) -> (r: Dict)
    ensures
        r@ == d@,
    decreases d, 0nat,
{
    let mut entries: Vec<(String, Value)> = Vec::new();
    let mut i: usize = 0;
    while i < d.entries.len()
        invariant
            i <= d.entries.len(),
            entries.len() == i,
            forall|j: int|
                0 <= j < i ==> (#[trigger] entries@[j]).0@ == d.entries@[j].0@ && entries@[j].1@
                    == d.entries@[j].1@,
        decreases d.entries.len() - i,
    {
        entries.push((d.entries[i].0.clone(), copy_value(&d.entries[i].1)));
        i += 1;
    }
    proof {
        use_type_invariant(d);
        let ghost r = Dict { entries };
        lemma_dict_view(r);
        lemma_dict_view(*d);
        assert(r@ =~= d@);
    }
    Dict { entries }
}

impl Clone for Value {
    fn clone(&self) -> (r: Value)
        ensures
            r@ == self@,
    {
        copy_value(self)
    }
}

impl Clone for Dict {
    fn clone(&self) -> (r: Dict)
        ensures
            r@ == self@,
    {
        copy_dict(self)
    }
}

impl Value {
    /// The integer, if the value is an `Int`.
    pub fn as_i64(&self) -> (r: Option<i64>)
        ensures
            r == (match self@ {
                Datum::Int(n) => Some(n),
                _ => None,
            }),
    {
        match *self {
            Value::Int(v) => Some(v),
            _ => None,
        }
    }

    /// The bytes, if the value is `Text`.
    pub fn as_bytes(&self) -> (r: Option<&[u8]>)
        ensures
            match self@ {
                Datum::Text(t) => r matches Some(bytes) && bytes@ == t,
                _ => r is None,
            },
    {
        match *self {
            Value::Text(ref v) => Some(v.as_slice()),
            _ => None,
        }
    }

    /// The bytes, to be changed in place, if the value is `Text`.
    pub fn as_bytes_mut(&mut self) -> (r: Option<&mut [u8]>)
        ensures
            match old(self)@ {
                Datum::Text(t) => r matches Some(bytes) && bytes@ == t && final(self)@
                    == Datum::Text(final(bytes)@),
                _ => r is None && *final(self) == *old(self),
            },
    {
        match *self {
            Value::Text(ref mut v) => Some(v.as_mut_slice()),
            _ => None,
        }
    }

    /// The bytes as a string, if the value is `Text`: nothing for another
    /// value, and an error for `Text` that is not valid UTF-8.
    pub fn as_str(&self) -> (r: Result<Option<&str>, Utf8Error>)
        ensures
            match self@ {
                Datum::Text(t) => if valid_utf8(t) {
                    r matches Ok(Some(s)) && s@ == decode_utf8(t)
                } else {
                    r is Err
                },
                _ => r matches Ok(None),
            },
    {
        match *self {
            Value::Text(ref v) => match core::str::from_utf8(v.as_slice()) {
                Ok(s) => {
                    proof {
                        encode_utf8_decode_utf8(s@);
                    }
                    Ok(Some(s))
                },
                Err(e) => Err(e),
            },
            _ => Ok(None),
        }
    }

    /// The bytes as a string, to be changed in place, if the value is
    /// `Text`: nothing for another value, and an error for `Text` that is
    /// not valid UTF-8.
    pub fn as_str_mut(&mut self) -> (r: Result<Option<&mut str>, Utf8Error>)
        ensures
            match old(self)@ {
                Datum::Text(t) => if valid_utf8(t) {
                    r matches Ok(Some(s)) && s@ == decode_utf8(t) && final(self)@ == Datum::Text(
                        encode_utf8(final(s)@),
                    )
                } else {
                    r is Err && final(self)@ == old(self)@
                },
                _ => r matches Ok(None) && *final(self) == *old(self),
            },
    {
        match *self {
            Value::Text(ref mut v) => match core::str::from_utf8_mut(v.as_mut_slice()) {
                Ok(s) => {
                    proof {
                        encode_utf8_decode_utf8(s@);
                    }
                    Ok(Some(s))
                },
                Err(e) => Err(e),
            },
            _ => Ok(None),
        }
    }

    /// The items, if the value is a `List`.
    pub fn as_list(&self) -> (r: Option<&[Value]>)
        ensures
            match self@ {
                Datum::List(items) => r matches Some(list) && views(list@) == items,
                _ => r is None,
            },
    {
        match *self {
            Value::List(ref v) => {
                proof {
                    lemma_list_view(*self);
                }
                Some(v.as_slice())
            },
            _ => None,
        }
    }

    /// The items, to be changed in place, if the value is a `List`.
    pub fn as_list_mut(&mut self) -> (r: Option<&mut List>)
        ensures
            match *old(self) {
                Value::List(items) => r matches Some(list) && *list == items && *final(self)
                    == Value::List(*final(list)),
                _ => r is None && *final(self) == *old(self),
            },
    {
        match *self {
            Value::List(ref mut v) => Some(v),
            _ => None,
        }
    }

    /// The dictionary, if the value is a `Dict`.
    pub fn as_dict(&self) -> (r: Option<&Dict>)
        ensures
            match self@ {
                Datum::Dict(entries) => r matches Some(dict) && dict@ == entries,
                _ => r is None,
            },
    {
        match *self {
            Value::Dict(ref v) => Some(v),
            _ => None,
        }
    }

    /// The dictionary, to be changed in place, if the value is a `Dict`.
    pub fn as_dict_mut(&mut self) -> (r: Option<&mut Dict>)
        ensures
            match *old(self) {
                Value::Dict(entries) => r matches Some(dict) && *dict == entries && *final(self)
                    == Value::Dict(*final(dict)),
                _ => r is None && *final(self) == *old(self),
            },
    {
        match *self {
            Value::Dict(ref mut v) => Some(v),
            _ => None,
        }
    }
}


impl Dict {
    /// The number of entries. The keys stand in ascending order.
    pub fn len(&self) -> (n: usize)
        ensures
            n == self@.len(),
            keys_ascending(self@),
    {
        proof {
            use_type_invariant(self);
            lemma_dict_view(*self);
        }
        self.entries.len()
    }

    /// The key of the entry at `index`, counted in ascending order of keys.
    pub fn key_at(&self, index: usize) -> (key: &str)
        requires
            index < self@.len(),
        ensures
            key@ == self@[index as int].0,
    {
        proof {
            lemma_dict_view(*self);
        }
        self.entries[index].0.as_str()
    }

    /// The value of the entry at `index`, counted in ascending order of keys.
    pub fn value_at(&self, index: usize) -> (value: &Value)
        requires
            index < self@.len(),
        ensures
            value@ == self@[index as int].1,
            decreases_to!(self => value),
    {
        proof {
            lemma_dict_view(*self);
        }
        &self.entries[index].1
    }
}


impl Dict {
    /// An empty dictionary.
    pub fn new() -> (d: Dict)
        ensures
            d@ == Entries::empty(),
    {
        let d = Dict { entries: Vec::new() };
        proof {
            lemma_dict_view(d);
            assert(d@ =~= Entries::empty());
        }
        d
    }

    /// Whether the dictionary has no entries.
    pub fn is_empty(&self) -> (r: bool)
        ensures
            r == (self@.len() == 0),
    {
        proof {
            lemma_dict_view(*self);
        }
        self.entries.len() == 0
    }

    /// The offset at which `key` stands or would stand, and whether it is
    /// there.
    fn locate(&self, key: &str) -> (r: (usize, bool))
        ensures
            r.0 == rank(self@, key@, self@.len()),
            r.1 == has_key(self@, key@),
            r.0 <= self@.len(),
            r.1 ==> r.0 < self@.len() && self@[r.0 as int].0 == key@,
            keys_ascending(self@),
    {
        proof {
            use_type_invariant(self);
            lemma_dict_view(*self);
        }
        let wanted = key.as_bytes();
        let mut i: usize = self.entries.len();
        while i > 0
            invariant
                i <= self.entries@.len(),
                self@.len() == self.entries@.len(),
                keys_ascending(self@),
                wanted@ == encode_utf8(key@),
                forall|j: int|
                    0 <= j < self.entries@.len() ==> (#[trigger] self@[j]) == (
                        self.entries@[j].0@,
                        self.entries@[j].1@,
                    ),
                forall|j: int| i <= j < self@.len() ==> key_lt(key@, #[trigger] self@[j].0),
            ensures
                i > 0 ==> key_lt(self@[i - 1].0, key@),
            decreases i,
        {
            let place = compare(self.entries[i - 1].0.as_str().as_bytes(), wanted);
            match place {
                Place::Before => {
                    break ;
                },
                Place::Same => {
                    proof {
                        lemma_key_bytes_injective(self@[i - 1].0, key@);
                        assert(has_key(self@, key@));
                        lemma_key_at_rank(self@, key@);
                        lemma_keys_differ_or_same(self@, i - 1, rank(self@, key@, self@.len()) as int);
                    }
                    return (i - 1, true);
                },
                Place::After => {
                    i -= 1;
                },
            }
        }
        proof {
            let entries = self@;
            assert forall|j: int| 0 <= j < i implies key_lt(#[trigger] entries[j].0, key@) by {
                lemma_key_order(entries[j].0, entries[i - 1].0, key@);
                if j < i - 1 {
                    assert(key_lt(entries[j].0, entries[i - 1].0));
                }
            }
            assert forall|j: int| i <= j < entries.len() implies !key_lt(
                #[trigger] entries[j].0,
                key@,
            ) by {
                lemma_key_order(key@, entries[j].0, key@);
            }
            lemma_rank_split(entries, key@, i as int, entries.len());
            if has_key(entries, key@) {
                let at = choose|k: int| 0 <= k < entries.len() && (#[trigger] entries[k]).0 == key@;
                lemma_key_order(key@, key@, key@);
                if at < i {
                    assert(key_lt(entries[at].0, key@));
                } else {
                    assert(key_lt(key@, entries[at].0));
                }
            }
        }
        (i, false)
    }

    /// Whether the dictionary holds `key`.
    pub fn contains_key(&self, key: &str) -> (r: bool)
        ensures
            r == has_key(self@, key@),
    {
        self.locate(key).1
    }

    /// The value under `key`, if the dictionary holds it.
    pub fn get(&self, key: &str) -> (r: Option<&Value>)
        ensures
            match r {
                Some(value) => lookup(self@, key@) == Some(value@),
                None => lookup(self@, key@) is None,
            },
    {
        let (at, found) = self.locate(key);
        if found {
            proof {
                lemma_dict_view(*self);
                lemma_lookup_at(self@, key@, at as int);
            }
            Some(&self.entries[at].1)
        } else {
            proof {
                lemma_lookup_none(self@, key@);
            }
            None
        }
    }
}


impl Dict {
    /// Takes the stored entries out and leaves none.
    fn take_entries(&mut self) -> (entries: Vec<(String, Value)>)
        ensures
            entries == old(self).entries,
            final(self).entries@.len() == 0,
    {
        let mut entries: Vec<(String, Value)> = Vec::new();
        proof {
            let ghost emptied = Dict { entries };
            lemma_dict_view(emptied);
        }
        core::mem::swap(&mut self.entries, &mut entries);
        entries
    }

    /// Stores `entries`, which are in ascending order of keys.
    fn store_entries(&mut self, entries: Vec<(String, Value)>)
        requires
            keys_ascending((Dict { entries })@),
        ensures
            final(self).entries == entries,
    {
        let mut entries = entries;
        core::mem::swap(&mut self.entries, &mut entries);
    }

    /// Puts `value` under `key` and returns the value that `key` had.
    pub fn insert(&mut self, key: String, value: Value) -> (r: Option<Value>)
        ensures
            final(self)@ == put(old(self)@, key@, value@),
            match r {
                Some(before) => lookup(old(self)@, key@) == Some(before@),
                None => lookup(old(self)@, key@) is None,
            },
    {
        let (at, found) = self.locate(key.as_str());
        proof {
            lemma_dict_view(*self);
            if !found {
                lemma_lookup_none(self@, key@);
            }
        }
        let ghost key_view = key@;
        let ghost value_view = value@;
        let mut entries = self.take_entries();
        if found {
            proof {
                lemma_lookup_at(old(self)@, key_view, at as int);
            }
            let before = entries.remove(at);
            entries.insert(at, (key, value));
            proof {
                let ghost next = Dict { entries };
                lemma_dict_view(next);
                assert(next@ =~= old(self)@.update(at as int, (key_view, value_view)));
                assert forall|i: int, j: int| 0 <= i < j < next@.len() implies key_lt(
                    #[trigger] next@[i].0,
                    #[trigger] next@[j].0,
                ) by {
                    assert(next@[i].0 == old(self)@[i].0);
                    assert(next@[j].0 == old(self)@[j].0);
                }
            }
            self.store_entries(entries);
            Some(before.1)
        } else {
            entries.insert(at, (key, value));
            proof {
                let ghost next = Dict { entries };
                lemma_dict_view(next);
                assert(next@ =~= with_entry(old(self)@, key_view, value_view));
                lemma_with_entry_ascending(old(self)@, key_view, value_view);
            }
            self.store_entries(entries);
            None
        }
    }

    /// Takes the entry of `key` out and returns the value that `key` had.
    pub fn remove(&mut self, key: &str) -> (r: Option<Value>)
        ensures
            final(self)@ == without(old(self)@, key@),
            match r {
                Some(before) => lookup(old(self)@, key@) == Some(before@),
                None => lookup(old(self)@, key@) is None,
            },
    {
        let (at, found) = self.locate(key);
        proof {
            lemma_dict_view(*self);
            if !found {
                lemma_lookup_none(self@, key@);
            }
        }
        if found {
            proof {
                lemma_lookup_at(self@, key@, at as int);
            }
            let mut entries = self.take_entries();
            let before = entries.remove(at);
            proof {
                let ghost next = Dict { entries };
                lemma_dict_view(next);
                assert(next@ =~= old(self)@.remove(at as int));
                assert forall|i: int, j: int| 0 <= i < j < next@.len() implies key_lt(
                    #[trigger] next@[i].0,
                    #[trigger] next@[j].0,
                ) by {
                    let a = if i < at {
                        i
                    } else {
                        i + 1
                    };
                    let b = if j < at {
                        j
                    } else {
                        j + 1
                    };
                    assert(next@[i].0 == old(self)@[a].0);
                    assert(next@[j].0 == old(self)@[b].0);
                }
            }
            self.store_entries(entries);
            Some(before.1)
        } else {
            None
        }
    }
}


impl Dict {
    /// The dictionary that holds `pairs`, given in any order: it is sorted
    /// here, and of two pairs with one key the later stays.
    pub fn from_pairs(pairs: Vec<(String, Value)>) -> (d: Dict)
        ensures
            d@ == collected(pair_views(pairs@), pairs@.len()),
    {
        let ghost all = pair_views(pairs@);
        let count = pairs.len();
        let mut rest = pairs;
        let mut stack: Vec<(String, Value)> = Vec::new();
        while rest.len() > 0
            invariant
                rest@.len() + stack@.len() == count,
                count == all.len(),
                forall|i: int| 0 <= i < rest@.len() ==> all[i] == (#[trigger] rest@[i].0@, rest@[i].1@),
                forall|i: int|
                    0 <= i < stack@.len() ==> all[count - 1 - i] == (
                        #[trigger] stack@[i].0@,
                        stack@[i].1@,
                    ),
            decreases rest@.len(),
        {
            match rest.pop() {
                Some(pair) => {
                    stack.push(pair);
                },
                None => {},
            }
        }
        let mut dict = Dict::new();
        while stack.len() > 0
            invariant
                stack@.len() <= count,
                count == all.len(),
                forall|i: int|
                    0 <= i < stack@.len() ==> all[count - 1 - i] == (
                        #[trigger] stack@[i].0@,
                        stack@[i].1@,
                    ),
                dict@ == collected(all, (count - stack@.len()) as nat),
            decreases stack@.len(),
        {
            match stack.pop() {
                Some(pair) => {
                    dict.insert(pair.0, pair.1);
                },
                None => {},
            }
        }
        dict
    }
}

} // verus!
