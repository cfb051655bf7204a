//! The grammar as a function on bytes: what reading a byte string yields,
//! a datum or the first failure with its offset.
//!
//! One byte selects what is read: `i` an integer, a digit a byte string, `l`
//! a list, `d` a dictionary. A `-` where a value or a key should start is a
//! negative length, and any other byte is no token. Input that ends where
//! more is needed fails at its length. The failures of one token are told
//! in the order of their offsets, but for a number too large for an
//! integer, which is told once the closing `e` was found, at the `i`.

use vstd::prelude::*;
use vstd::utf8::{decode_utf8, valid_utf8};
use crate::error::ErrorKind;
use crate::model::{
    has_key, key_lt, with_entry, Datum, Entries, CLOSE, COLON, DICT_OPEN, INT_OPEN, LIST_OPEN,
    MINUS, NINE, ZERO,
};

verus! {

/// A failure of reading: its kind and the offset at which it is detected.
pub ghost struct Failure {
    pub kind: ErrorKind,
    pub offset: int,
}

/// What reading one token yields: what was read and the offset behind it,
/// or the failure.
pub type Parsed<T> = Result<(T, int), Failure>;

/// The failure of kind `kind` at `offset`.
pub open spec fn fail<T>(kind: ErrorKind, offset: int) -> Parsed<T> {
    Err(Failure { kind, offset })
}

/// `b` is an ASCII digit.
pub open spec fn is_digit(b: u8) -> bool {
    ZERO <= b <= NINE
}

/// The number that the decimal digits `s` denote.
pub open spec fn digits_value(s: Seq<u8>) -> nat
    decreases s.len(),
{
    if s.len() == 0 {
        0
    } else {
        (digits_value(s.drop_last()) * 10 + (s.last() - ZERO)) as nat
    }
}

/// How many digits stand in a row from offset `from` on.
pub open spec fn digit_count(s: Seq<u8>, from: int) -> nat
    decreases s.len() - from,
{
    if 0 <= from < s.len() && is_digit(s[from]) {
        1 + digit_count(s, from + 1)
    } else {
        0
    }
}

/// The first offset at or behind `from` that holds no digit, or the length
/// of `s` if digits fill the rest.
pub open spec fn digits_end(s: Seq<u8>, from: int) -> int {
    from + digit_count(s, from)
}

/// Reads the integer whose `i` stands at `pos`. A leading zero, `-0`, a
/// missing digit and a byte that is neither a digit nor the closing `e` fail
/// where they stand; a number outside the 64-bit signed range fails at `pos`.
pub open spec fn parse_int(s: Seq<u8>, pos: int) -> Parsed<i64> {
    let negative = pos + 1 < s.len() && s[pos + 1] == MINUS;
    let first = if negative {
        pos + 2
    } else {
        pos + 1
    };
    let end = digits_end(s, first);
    if first >= s.len() {
        fail(ErrorKind::UnexpectedEnd, s.len() as int)
    } else if !is_digit(s[first]) {
        fail(ErrorKind::InvalidInteger, first)
    } else if s[first] == ZERO && negative {
        fail(ErrorKind::InvalidInteger, first)
    } else if s[first] == ZERO && first + 1 >= s.len() {
        fail(ErrorKind::UnexpectedEnd, s.len() as int)
    } else if s[first] == ZERO && s[first + 1] != CLOSE {
        fail(ErrorKind::InvalidInteger, first + 1)
    } else if end >= s.len() {
        fail(ErrorKind::UnexpectedEnd, s.len() as int)
    } else if s[end] != CLOSE {
        fail(ErrorKind::InvalidInteger, end)
    } else {
        let magnitude = digits_value(s.subrange(first, end)) as int;
        let n = if negative {
            -magnitude
        } else {
            magnitude
        };
        if i64::MIN <= n <= i64::MAX {
            Ok((n as i64, end + 1))
        } else {
            fail(ErrorKind::InvalidInteger, pos)
        }
    }
}

/// Reads the byte string whose length prefix starts with the digit at
/// `pos`. A leading zero and a byte that is neither a digit nor the colon
/// fail where they stand; a length that the rest of the input cannot fill
/// fails at the end of the input.
pub open spec fn parse_text(s: Seq<u8>, pos: int) -> Parsed<Seq<u8>> {
    let end = digits_end(s, pos);
    if s[pos] == ZERO && pos + 1 >= s.len() {
        fail(ErrorKind::UnexpectedEnd, s.len() as int)
    } else if s[pos] == ZERO && s[pos + 1] != COLON {
        fail(ErrorKind::InvalidLength, pos + 1)
    } else if end >= s.len() {
        fail(ErrorKind::UnexpectedEnd, s.len() as int)
    } else if s[end] != COLON {
        fail(ErrorKind::InvalidLength, end)
    } else {
        let n = digits_value(s.subrange(pos, end)) as int;
        if end + 1 + n > s.len() {
            fail(ErrorKind::UnexpectedEnd, s.len() as int)
        } else {
            Ok((s.subrange(end + 1, end + 1 + n), end + 1 + n))
        }
    }
}

/// Reads the value that starts at `pos`. With `strict`, a dictionary whose
/// keys are not written in ascending order is refused; without, its entries
/// are put in order.
pub open spec fn parse_value(s: Seq<u8>, pos: int, strict: bool) -> Parsed<Datum>
    decreases s.len() - pos, 0nat,
{
    if pos < 0 || pos >= s.len() {
        fail(ErrorKind::UnexpectedEnd, s.len() as int)
    } else if s[pos] == INT_OPEN {
        match parse_int(s, pos) {
            Ok((n, next)) => Ok((Datum::Int(n), next)),
            Err(f) => Err(f),
        }
    } else if is_digit(s[pos]) {
        match parse_text(s, pos) {
            Ok((t, next)) => Ok((Datum::Text(t), next)),
            Err(f) => Err(f),
        }
    } else if s[pos] == LIST_OPEN {
        match parse_items(s, pos + 1, Seq::empty(), strict) {
            Ok((items, next)) => Ok((Datum::List(items), next)),
            Err(f) => Err(f),
        }
    } else if s[pos] == DICT_OPEN {
        match parse_entries(s, pos + 1, Seq::empty(), strict) {
            Ok((entries, next)) => Ok((Datum::Dict(entries), next)),
            Err(f) => Err(f),
        }
    } else if s[pos] == MINUS {
        fail(ErrorKind::InvalidLength, pos)
    } else {
        fail(ErrorKind::InvalidToken, pos)
    }
}

/// Reads the rest of a list from `pos`, with `done` read before: values up
/// to the closing `e`. A value that is read ends behind its first byte and
/// inside the input; that this is asked here is what lets the definition
/// end, and it never fails.
pub open spec fn parse_items(s: Seq<u8>, pos: int, done: Seq<Datum>, strict: bool) -> Parsed<
    Seq<Datum>,
>
    decreases s.len() - pos, 1nat,
{
    if pos < 0 || pos >= s.len() {
        fail(ErrorKind::UnexpectedEnd, s.len() as int)
    } else if s[pos] == CLOSE {
        Ok((done, pos + 1))
    } else {
        match parse_value(s, pos, strict) {
            Err(f) => Err(f),
            Ok((item, next)) => if pos < next <= s.len() {
                parse_items(s, next, done.push(item), strict)
            } else {
                fail(ErrorKind::UnexpectedEnd, s.len() as int)
            },
        }
    }
}

/// Reads the rest of a dictionary from `pos`, with `done` read before: keys
/// with their values up to the closing `e`. A key is a byte string that is
/// UTF-8 and differs from the keys before it; what is wrong with a key is
/// reported at the key's first byte. As in a list, a value that is read is
/// asked to end behind its first byte.
pub open spec fn parse_entries(
    s: Seq<u8>,
    pos: int,
    done: Entries,
    strict: bool,
) -> Parsed<Entries>
    decreases s.len() - pos, 1nat,
{
    if pos < 0 || pos >= s.len() {
        fail(ErrorKind::UnexpectedEnd, s.len() as int)
    } else if s[pos] == CLOSE {
        Ok((done, pos + 1))
    } else if s[pos] == MINUS {
        fail(ErrorKind::InvalidLength, pos)
    } else if !is_digit(s[pos]) {
        fail(ErrorKind::InvalidToken, pos)
    } else {
        match parse_text(s, pos) {
            Err(f) => Err(f),
            Ok((raw, at)) => if !valid_utf8(raw) {
                fail(ErrorKind::InvalidUtf8, pos)
            } else if has_key(done, decode_utf8(raw)) {
                fail(ErrorKind::DuplicateKey, pos)
            } else if strict && done.len() > 0 && !key_lt(done.last().0, decode_utf8(raw)) {
                fail(ErrorKind::UnsortedKeys, pos)
            } else {
                match parse_value(s, at, strict) {
                    Err(f) => Err(f),
                    Ok((value, next)) => if at < next <= s.len() {
                        parse_entries(s, next, with_entry(done, decode_utf8(raw), value), strict)
                    } else {
                        fail(ErrorKind::UnexpectedEnd, s.len() as int)
                    },
                }
            },
        }
    }
}

/// What decoding the whole of `s` yields: the one value that fills it, or
/// the first failure.
pub open spec fn decoded(s: Seq<u8>, strict: bool) -> Result<Datum, Failure> {
    match parse_value(s, 0, strict) {
        Err(f) => Err(f),
        Ok((d, next)) => if next < s.len() {
            Err(Failure { kind: ErrorKind::TrailingData, offset: next })
        } else {
            Ok(d)
        },
    }
}

} // verus!
