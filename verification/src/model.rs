//! The mathematical model: what a value is, what a dictionary holds, and how
//! a value is written as bytes.

use vstd::prelude::*;
use vstd::utf8::encode_utf8;

verus! {

/// `i`, which opens an integer.
pub const INT_OPEN: u8 = 105;

/// `l`, which opens a list.
pub const LIST_OPEN: u8 = 108;

/// `d`, which opens a dictionary.
pub const DICT_OPEN: u8 = 100;

/// `e`, which closes an integer, a list or a dictionary.
pub const CLOSE: u8 = 101;

/// `:`, which parts a length from the bytes it counts.
pub const COLON: u8 = 58;

/// `-`, the sign of a negative integer.
pub const MINUS: u8 = 45;

/// `0`, the lowest digit.
pub const ZERO: u8 = 48;

/// `9`, the highest digit.
pub const NINE: u8 = 57;

/// A bencode datum as a mathematical value. The entries of a dictionary are
/// its keys with their values, in the order in which they are written.
pub ghost enum Datum {
    Int(i64),
    Text(Seq<u8>),
    List(Seq<Datum>),
    Dict(Seq<(Seq<char>, Datum)>),
}

/// The entries of a dictionary: its keys with their values.
pub type Entries = Seq<(Seq<char>, Datum)>;

/// Lexicographic order on byte strings: `a` comes strictly before `b`.
pub open spec fn bytes_lt(a: Seq<u8>, b: Seq<u8>) -> bool
    decreases a.len(),
{
    if b.len() == 0 {
        false
    } else if a.len() == 0 {
        true
    } else if a[0] != b[0] {
        a[0] < b[0]
    } else {
        bytes_lt(a.skip(1), b.skip(1))
    }
}

/// The order of dictionary keys: by the bytes of their UTF-8 form.
pub open spec fn key_lt(a: Seq<char>, b: Seq<char>) -> bool {
    bytes_lt(encode_utf8(a), encode_utf8(b))
}

/// The keys of `entries` stand in strictly ascending order.
pub open spec fn keys_ascending(entries: Entries) -> bool {
    forall|i: int, j: int|
        0 <= i < j < entries.len() ==> key_lt(#[trigger] entries[i].0, #[trigger] entries[j].0)
}

/// Every dictionary inside `d`, at any depth, has its keys in strictly
/// ascending order, and so no key twice.
pub open spec fn canonical(d: Datum) -> bool
    decreases d,
{
    match d {
        Datum::Int(_) => true,
        Datum::Text(_) => true,
        Datum::List(items) => forall|i: int|
            0 <= i < items.len() ==> canonical(#[trigger] items[i]),
        Datum::Dict(entries) => keys_ascending(entries) && forall|i: int|
            0 <= i < entries.len() ==> canonical(#[trigger] entries[i].1),
    }
}

/// The decimal digits of `n`, most significant first, without leading zeros.
pub open spec fn digits(n: nat) -> Seq<u8>
    decreases n,
{
    if n < 10 {
        seq![(ZERO + n) as u8]
    } else {
        digits(n / 10).push((ZERO + n % 10) as u8)
    }
}

/// The decimal form of `n`: a minus sign if it is negative, then its digits.
pub open spec fn int_text(n: int) -> Seq<u8> {
    if n < 0 {
        seq![MINUS] + digits((-n) as nat)
    } else {
        digits(n as nat)
    }
}

/// The canonical bytes of a byte string: its length, a colon, the bytes.
pub open spec fn text_encoding(t: Seq<u8>) -> Seq<u8> {
    digits(t.len()) + seq![COLON] + t
}

/// The canonical bytes of `d`.
pub open spec fn encoding(d: Datum) -> Seq<u8>
    decreases d, 0nat,
{
    match d {
        Datum::Int(n) => seq![INT_OPEN] + int_text(n as int) + seq![CLOSE],
        Datum::Text(t) => text_encoding(t),
        Datum::List(items) => seq![LIST_OPEN] + items_encoding(items, items.len()) + seq![CLOSE],
        Datum::Dict(entries) => seq![DICT_OPEN] + entries_encoding(entries, entries.len()) + seq![
            CLOSE,
        ],
    }
}

/// The encodings of the first `n` of `items`, one after the other.
pub open spec fn items_encoding(items: Seq<Datum>, n: nat) -> Seq<u8>
    decreases items, n,
{
    if n == 0 || n > items.len() {
        Seq::empty()
    } else {
        items_encoding(items, (n - 1) as nat) + encoding(items[n - 1])
    }
}

/// The encodings of the first `n` of `entries`, one after the other: each
/// key as a byte string, then its value.
pub open spec fn entries_encoding(entries: Entries, n: nat) -> Seq<u8>
    decreases entries, n,
{
    if n == 0 || n > entries.len() {
        Seq::empty()
    } else {
        entries_encoding(entries, (n - 1) as nat) + text_encoding(encode_utf8(entries[n - 1].0))
            + encoding(entries[n - 1].1)
    }
}

/// `entries` holds `key`.
pub open spec fn has_key(entries: Entries, key: Seq<char>) -> bool {
    exists|i: int| 0 <= i < entries.len() && (#[trigger] entries[i]).0 == key
}

/// How many keys of the first `n` of `entries` come before `key`.
pub open spec fn rank(entries: Entries, key: Seq<char>, n: nat) -> nat
    decreases n,
{
    if n == 0 || n > entries.len() {
        0
    } else {
        rank(entries, key, (n - 1) as nat) + if key_lt(entries[n - 1].0, key) {
            1nat
        } else {
            0nat
        }
    }
}

/// `entries` with `key` and `value` put in behind the keys that come before
/// `key`.
pub open spec fn with_entry(entries: Entries, key: Seq<char>, value: Datum) -> Entries {
    entries.insert(rank(entries, key, entries.len()) as int, (key, value))
}

/// The value that `entries` holds under `key`, if any.
pub open spec fn lookup(entries: Entries, key: Seq<char>) -> Option<Datum>
    decreases entries.len(),
{
    if entries.len() == 0 {
        None
    } else if entries.last().0 == key {
        Some(entries.last().1)
    } else {
        lookup(entries.drop_last(), key)
    }
}

/// `entries` with `value` under `key`: in place of the value that `key` had,
/// or as a new entry at the place that the order of keys gives it.
pub open spec fn put(entries: Entries, key: Seq<char>, value: Datum) -> Entries {
    if has_key(entries, key) {
        entries.update(rank(entries, key, entries.len()) as int, (key, value))
    } else {
        with_entry(entries, key, value)
    }
}

/// `entries` without the entry of `key`.
pub open spec fn without(entries: Entries, key: Seq<char>) -> Entries {
    if has_key(entries, key) {
        entries.remove(rank(entries, key, entries.len()) as int)
    } else {
        entries
    }
}

/// The entries that come of putting the first `n` of `pairs` into an empty
/// dictionary one after the other: of two pairs with one key the later
/// stays.
pub open spec fn collected(pairs: Entries, n: nat) -> Entries
    decreases n,
{
    if n == 0 || n > pairs.len() {
        Seq::empty()
    } else {
        put(collected(pairs, (n - 1) as nat), pairs[n - 1].0, pairs[n - 1].1)
    }
}

} // verus!
