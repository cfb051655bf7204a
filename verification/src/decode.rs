//! The decoder: from bytes to the value they denote, or the first failure.

use vstd::prelude::*;
use vstd::slice::{slice_subrange, slice_to_vec};
use vstd::utf8::encode_utf8_decode_utf8;
use crate::accept::{lemma_decoded_canonical, lemma_strict_accepts_encodings};
use crate::error::{Error, ErrorKind};
use crate::grammar::{
    decoded, digits_end, digits_value, fail, is_digit, parse_entries, parse_int, parse_items,
    parse_text, parse_value, Failure,
};
use crate::laws::lemma_decode_encode;
use crate::model::{canonical, encoding, Datum, CLOSE, COLON, DICT_OPEN, INT_OPEN, LIST_OPEN, MINUS, NINE, ZERO};
use crate::order::{compare, Place};
use crate::value::{lemma_list_view, Dict, Value};

verus! {

/// `r` is what `p` says: the same reading, or the failure of that kind at
/// that offset.
pub open spec fn agrees<T>(r: Result<(T, usize), Error>, p: Result<(T, int), Failure>) -> bool {
    match r {
        Ok((t, next)) => p == Ok::<(T, int), Failure>((t, next as int)),
        Err(e) => p == Err::<(T, int), Failure>(Failure { kind: e.kind, offset: e.offset as int }),
    }
}

/// Reads the digits that stand in a row from `from` on: the offset behind
/// them, and the number they denote unless it is too large for 64 bits.
fn read_digits(s: &[u8], from: usize) -> (r: (usize, Option<u64>))
    requires
        from <= s.len(),
    ensures
        r.0 == digits_end(s@, from as int),
        from <= r.0 <= s.len(),
        match r.1 {
            Some(n) => n == digits_value(s@.subrange(from as int, r.0 as int)),
            None => digits_value(s@.subrange(from as int, r.0 as int)) > u64::MAX,
        },
{
    let mut i: usize = from;
    let mut total: Option<u64> = Some(0);
    while i < s.len() && ZERO <= s[i] && s[i] <= NINE
        invariant
            from <= i <= s.len(),
            digits_end(s@, from as int) == digits_end(s@, i as int),
            match total {
                Some(n) => n == digits_value(s@.subrange(from as int, i as int)),
                None => digits_value(s@.subrange(from as int, i as int)) > u64::MAX,
            },
        decreases s.len() - i,
    {
        let digit: u64 = (s[i] - ZERO) as u64;
        assert(s@.subrange(from as int, i + 1).drop_last() =~= s@.subrange(from as int, i as int));
        total =
        match total {
            Some(n) => if n > (u64::MAX - digit) / 10 {
                None
            } else {
                Some(n * 10 + digit)
            },
            None => None,
        };
        i += 1;
    }
    (i, total)
}

/// Reads the integer whose `i` stands at `pos`.
fn read_int(s: &[u8], pos: usize) -> (r: Result<(i64, usize), Error>)
    requires
        pos < s.len(),
    ensures
        agrees(r, parse_int(s@, pos as int)),
{
    let end_of_input = s.len();
    let negative = pos + 1 < s.len() && s[pos + 1] == MINUS;
    let first: usize = if negative {
        pos + 2
    } else {
        pos + 1
    };
    if first >= s.len() {
        return Err(Error::new(ErrorKind::UnexpectedEnd, end_of_input));
    }
    if !(ZERO <= s[first] && s[first] <= NINE) {
        return Err(Error::new(ErrorKind::InvalidInteger, first));
    }
    if s[first] == ZERO {
        if negative {
            return Err(Error::new(ErrorKind::InvalidInteger, first));
        }
        if first + 1 >= s.len() {
            return Err(Error::new(ErrorKind::UnexpectedEnd, end_of_input));
        }
        if s[first + 1] != CLOSE {
            return Err(Error::new(ErrorKind::InvalidInteger, first + 1));
        }
    }
    let (end, total) = read_digits(s, first);
    if end >= s.len() {
        return Err(Error::new(ErrorKind::UnexpectedEnd, end_of_input));
    }
    if s[end] != CLOSE {
        return Err(Error::new(ErrorKind::InvalidInteger, end));
    }
    match total {
        None => Err(Error::new(ErrorKind::InvalidInteger, pos)),
        Some(magnitude) => {
            if negative {
                if magnitude > 9223372036854775808u64 {
                    Err(Error::new(ErrorKind::InvalidInteger, pos))
                } else if magnitude == 9223372036854775808u64 {
                    Ok((i64::MIN, end + 1))
                } else {
                    Ok((-(magnitude as i64), end + 1))
                }
            } else {
                if magnitude > 9223372036854775807u64 {
                    Err(Error::new(ErrorKind::InvalidInteger, pos))
                } else {
                    Ok((magnitude as i64, end + 1))
                }
            }
        },
    }
}

/// Reads the byte string whose length prefix starts with the digit at
/// `pos`: the offsets at which its bytes begin and end.
fn read_text(s: &[u8], pos: usize) -> (r: Result<(usize, usize), Error>)
    requires
        pos < s.len(),
        is_digit(s@[pos as int]),
    ensures
        match r {
            Ok((begin, end)) => pos < begin <= end <= s.len() && parse_text(s@, pos as int) == Ok::<
                (Seq<u8>, int),
                Failure,
            >((s@.subrange(begin as int, end as int), end as int)),
            Err(e) => parse_text(s@, pos as int) == fail::<Seq<u8>>(e.kind, e.offset as int),
        },
{
    let end_of_input = s.len();
    if s[pos] == ZERO {
        if pos + 1 >= s.len() {
            return Err(Error::new(ErrorKind::UnexpectedEnd, end_of_input));
        }
        if s[pos + 1] != COLON {
            return Err(Error::new(ErrorKind::InvalidLength, pos + 1));
        }
    }
    let (colon, total) = read_digits(s, pos);
    if colon >= s.len() {
        return Err(Error::new(ErrorKind::UnexpectedEnd, end_of_input));
    }
    if s[colon] != COLON {
        return Err(Error::new(ErrorKind::InvalidLength, colon));
    }
    let begin: usize = colon + 1;
    match total {
        None => Err(Error::new(ErrorKind::UnexpectedEnd, end_of_input)),
        Some(n) => {
            if n > (s.len() - begin) as u64 {
                Err(Error::new(ErrorKind::UnexpectedEnd, end_of_input))
            } else {
                Ok((begin, begin + n as usize))
            }
        },
    }
}

/// Reads the value that starts at `pos`.
fn read_value(s: &[u8], pos: usize, strict: bool) -> (r: Result<(Value, usize), Error>)
    requires
        pos <= s.len(),
    ensures
        match r {
            Ok((value, next)) => pos < next <= s.len() && parse_value(s@, pos as int, strict)
                == Ok::<(Datum, int), Failure>((value@, next as int)),
            Err(e) => parse_value(s@, pos as int, strict) == fail::<Datum>(e.kind, e.offset as int),
        },
    decreases s.len() - pos,
{
    let end_of_input = s.len();
    if pos >= s.len() {
        return Err(Error::new(ErrorKind::UnexpectedEnd, end_of_input));
    }
    let lead = s[pos];
    if lead == INT_OPEN {
        match read_int(s, pos) {
            Ok((n, next)) => Ok((Value::Int(n), next)),
            Err(e) => Err(e),
        }
    } else if ZERO <= lead && lead <= NINE {
        match read_text(s, pos) {
            Ok((begin, end)) => {
                let text = slice_to_vec(slice_subrange(s, begin, end));
                Ok((Value::Text(text), end))
            },
            Err(e) => Err(e),
        }
    } else if lead == LIST_OPEN {
        let mut items: Vec<Value> = Vec::new();
        let ghost mut done: Seq<Datum> = Seq::empty();
        let mut at: usize = pos + 1;
        loop
            invariant
                pos < at <= s.len(),
                end_of_input == s.len(),
                s@[pos as int] == LIST_OPEN,
                done.len() == items@.len(),
                forall|j: int| 0 <= j < items@.len() ==> (#[trigger] done[j]) == items@[j]@,
                parse_items(s@, pos + 1, Seq::empty(), strict) == parse_items(
                    s@,
                    at as int,
                    done,
                    strict,
                ),
            decreases s.len() - at,
        {
            if at >= s.len() {
                return Err(Error::new(ErrorKind::UnexpectedEnd, end_of_input));
            }
            if s[at] == CLOSE {
                let value = Value::List(items);
                proof {
                    lemma_list_view(value);
                    assert(value@->List_0 =~= done);
                }
                return Ok((value, at + 1));
            }
            match read_value(s, at, strict) {
                Err(e) => {
                    return Err(e);
                },
                Ok((item, next)) => {
                    proof {
                        done = done.push(item@);
                    }
                    items.push(item);
                    at = next;
                },
            }
        }
    } else if lead == DICT_OPEN {
        let mut dict = Dict::new();
        let mut at: usize = pos + 1;
        loop
            invariant
                pos < at <= s.len(),
                end_of_input == s.len(),
                s@[pos as int] == DICT_OPEN,
                parse_entries(s@, pos + 1, Seq::empty(), strict) == parse_entries(
                    s@,
                    at as int,
                    dict@,
                    strict,
                ),
            decreases s.len() - at,
        {
            if at >= s.len() {
                return Err(Error::new(ErrorKind::UnexpectedEnd, end_of_input));
            }
            if s[at] == CLOSE {
                return Ok((Value::Dict(dict), at + 1));
            }
            if s[at] == MINUS {
                return Err(Error::new(ErrorKind::InvalidLength, at));
            }
            if !(ZERO <= s[at] && s[at] <= NINE) {
                return Err(Error::new(ErrorKind::InvalidToken, at));
            }
            let (begin, end) = match read_text(s, at) {
                Err(e) => {
                    return Err(e);
                },
                Ok(span) => span,
            };
            let key = match core::str::from_utf8(slice_subrange(s, begin, end)) {
                Err(_) => {
                    return Err(Error::new(ErrorKind::InvalidUtf8, at));
                },
                Ok(key) => key,
            };
            proof {
                encode_utf8_decode_utf8(key@);
            }
            if dict.contains_key(key) {
                return Err(Error::new(ErrorKind::DuplicateKey, at));
            }
            let count = dict.len();
            if strict && count > 0 {
                match compare(dict.key_at(count - 1).as_bytes(), key.as_bytes()) {
                    Place::Before => {},
                    _ => {
                        return Err(Error::new(ErrorKind::UnsortedKeys, at));
                    },
                }
            }
            match read_value(s, end, strict) {
                Err(e) => {
                    return Err(e);
                },
                Ok((value, next)) => {
                    dict.insert(key.to_owned(), value);
                    at = next;
                },
            }
        }
    } else if lead == MINUS {
        Err(Error::new(ErrorKind::InvalidLength, pos))
    } else {
        Err(Error::new(ErrorKind::InvalidToken, pos))
    }
}

/// `r` is what `d` says: the value with that view, or the failure of that
/// kind at that offset.
pub open spec fn reports(r: Result<Value, Error>, d: Result<Datum, Failure>) -> bool {
    match r {
        Ok(value) => d == Ok::<Datum, Failure>(value@),
        Err(e) => d == Err::<Datum, Failure>(Failure { kind: e.kind, offset: e.offset as int }),
    }
}

/// Decodes the one value that fills `bytes`, strictly or not.
fn read_all(bytes: &[u8], strict: bool) -> (r: Result<Value, Error>)
    ensures
        reports(r, decoded(bytes@, strict)),
{
    match read_value(bytes, 0, strict) {
        Err(e) => Err(e),
        Ok((value, next)) => {
            if next < bytes.len() {
                Err(Error::new(ErrorKind::TrailingData, next))
            } else {
                Ok(value)
            }
        },
    }
}

/// Decodes `bytes`, which must hold one value and nothing else. The result
/// is that value, or the first failure with the offset at which it shows;
/// nothing is returned of an input that fails. The keys of a dictionary may
/// be written in any order, and are put in ascending order: what is
/// returned is canonical, and the encoding of a value always decodes to
/// that value.
///
/// One call nests in another for each list or dictionary inside another, so
/// the depth of the input is bounded by the stack alone.
pub fn decode(bytes: &[u8]) -> (r: Result<Value, Error>)
    ensures
        reports(r, decoded(bytes@, false)),
        r matches Ok(value) ==> canonical(value@),
        forall|d: Datum|
            canonical(d) && bytes@ == #[trigger] encoding(d) ==> (r matches Ok(value) && value@ == d),
{
    let r = read_all(bytes, false);
    proof {
        lemma_decoded_canonical(bytes@, false);
        assert forall|d: Datum| canonical(d) && bytes@ == #[trigger] encoding(d) implies decoded(
            bytes@,
            false,
        ) == Ok::<Datum, Failure>(d) by {
            lemma_decode_encode(d, false);
        }
    }
    r
}

/// Decodes `bytes` as `decode` does, but refuses with `UnsortedKeys` a
/// dictionary whose keys are not written in ascending order. So only
/// canonical input is accepted: a value is returned for the bytes that are
/// its encoding, and for no others.
pub fn decode_strict(bytes: &[u8]) -> (r: Result<Value, Error>)
    ensures
        reports(r, decoded(bytes@, true)),
        r matches Ok(value) ==> canonical(value@) && bytes@ == encoding(value@),
        forall|d: Datum|
            canonical(d) && bytes@ == #[trigger] encoding(d) ==> (r matches Ok(value) && value@ == d),
{
    let r = read_all(bytes, true);
    proof {
        assert forall|d: Datum| decoded(bytes@, true) == Ok::<Datum, Failure>(d) <==> canonical(d)
            && bytes@ == #[trigger] encoding(d) by {
            lemma_strict_accepts_encodings(bytes@, d);
        }
        if r is Ok {
            lemma_strict_accepts_encodings(bytes@, r->Ok_0@);
        }
    }
    r
}

} // verus!
