//! What holds of encoding and decoding together.

use vstd::prelude::*;
use vstd::utf8::{encode_utf8, encode_utf8_decode_utf8, encode_utf8_valid_utf8};
use crate::entries::lemma_with_entry_last;
use crate::grammar::{
    decoded, digit_count, digits_end, digits_value, is_digit, parse_entries, parse_int,
    parse_items, parse_text, parse_value, Failure,
};
use crate::model::{
    canonical, digits, encoding, entries_encoding, int_text, items_encoding, key_lt, keys_ascending,
    text_encoding, Datum, Entries, CLOSE, COLON, DICT_OPEN, INT_OPEN, LIST_OPEN, MINUS, ZERO,
};

verus! {

/// The bytes `t` stand in `s` from offset `pos` on.
pub open spec fn holds_at(s: Seq<u8>, pos: int, t: Seq<u8>) -> bool {
    &&& 0 <= pos
    &&& pos + t.len() <= s.len()
    &&& forall|i: int| 0 <= i < t.len() ==> s[pos + i] == #[trigger] t[i]
}

/// The digits of a number are digits, start with a zero only for zero, and
/// denote the number.
pub proof fn lemma_digits(n: nat)
    ensures
        digits(n).len() >= 1,
        forall|i: int| 0 <= i < digits(n).len() ==> is_digit(#[trigger] digits(n)[i]),
        digits(n)[0] == ZERO <==> n == 0,
        n == 0 ==> digits(n).len() == 1,
        digits_value(digits(n)) == n,
    decreases n,
{
    if n < 10 {
        assert(digits(n).drop_last() =~= Seq::<u8>::empty());
        assert(digits_value(digits(n).drop_last()) == 0);
    } else {
        lemma_digits(n / 10);
        assert(digits(n).drop_last() =~= digits(n / 10));
        assert(digits(n)[0] == digits(n / 10)[0]);
    }
}

/// Where `count` digits stand from `from` on, and no digit behind them,
/// `count` is the number of digits in a row.
pub proof fn lemma_digit_run(s: Seq<u8>, from: int, count: nat)
    requires
        0 <= from,
        from + count <= s.len(),
        forall|i: int| from <= i < from + count ==> is_digit(#[trigger] s[i]),
        from + count == s.len() || !is_digit(s[from + count]),
    ensures
        digit_count(s, from) == count,
    decreases count,
{
    if count > 0 {
        lemma_digit_run(s, from + 1, (count - 1) as nat);
    }
}

/// Reading an integer where its encoding stands yields it.
pub proof fn lemma_parse_int(s: Seq<u8>, pos: int, n: i64)
    requires
        holds_at(s, pos, encoding(Datum::Int(n))),
    ensures
        parse_int(s, pos) == Ok::<(i64, int), Failure>((n, pos + encoding(Datum::Int(n)).len())),
{
    let code = encoding(Datum::Int(n));
    let magnitude: nat = if n < 0 {
        (-n) as nat
    } else {
        n as nat
    };
    let negative = n < 0;
    let first = if negative {
        pos + 2
    } else {
        pos + 1
    };
    let text = digits(magnitude);
    lemma_digits(magnitude);
    assert(code == seq![INT_OPEN] + int_text(n as int) + seq![CLOSE]);
    assert(code.len() == first - pos + text.len() + 1);
    assert forall|i: int| 0 <= i < text.len() implies s[first + i] == #[trigger] text[i] by {
        assert(code[first - pos + i] == text[i]);
    }
    assert(s[pos + 1] == code[1]);
    if negative {
        assert(code[1] == MINUS);
    } else {
        assert(code[1] == text[0]);
    }
    let end = first + text.len();
    assert(s[end] == code[end - pos]);
    assert(code[end - pos] == CLOSE);
    assert forall|i: int| first <= i < end implies is_digit(#[trigger] s[i]) by {
        assert(s[first + (i - first)] == text[i - first]);
    }
    lemma_digit_run(s, first, text.len());
    assert(digits_end(s, first) == end);
    assert(s.subrange(first, end) =~= text);
    assert(s[first] == text[0]);
}

/// Reading a byte string where its encoding stands yields it.
pub proof fn lemma_parse_text(s: Seq<u8>, pos: int, t: Seq<u8>)
    requires
        holds_at(s, pos, text_encoding(t)),
    ensures
        parse_text(s, pos) == Ok::<(Seq<u8>, int), Failure>((t, pos + text_encoding(t).len())),
        is_digit(s[pos]),
{
    let code = text_encoding(t);
    let text = digits(t.len());
    lemma_digits(t.len());
    assert(code.len() == text.len() + 1 + t.len());
    assert forall|i: int| 0 <= i < text.len() implies s[pos + i] == #[trigger] text[i] by {
        assert(code[i] == text[i]);
    }
    let end = pos + text.len();
    assert(s[end] == code[end - pos]);
    assert(code[text.len() as int] == COLON);
    assert forall|i: int| pos <= i < end implies is_digit(#[trigger] s[i]) by {
        assert(s[pos + (i - pos)] == text[i - pos]);
    }
    lemma_digit_run(s, pos, text.len());
    assert(digits_end(s, pos) == end);
    assert(s.subrange(pos, end) =~= text);
    assert(s[pos] == text[0]);
    assert forall|i: int| 0 <= i < t.len() implies s[end + 1 + i] == #[trigger] t[i] by {
        assert(code[text.len() + 1 + i] == t[i]);
    }
    assert(s.subrange(end + 1, end + 1 + t.len()) =~= t);
}

/// Where bytes stand, each part of them stands at its place.
pub proof fn lemma_holds_split(s: Seq<u8>, pos: int, a: Seq<u8>, b: Seq<u8>)
    requires
        holds_at(s, pos, a + b),
    ensures
        holds_at(s, pos, a),
        holds_at(s, pos + a.len(), b),
{
    let whole = a + b;
    assert forall|i: int| 0 <= i < a.len() implies s[pos + i] == #[trigger] a[i] by {
        assert(whole[i] == a[i]);
    }
    assert forall|i: int| 0 <= i < b.len() implies s[pos + a.len() + i] == #[trigger] b[i] by {
        assert(whole[a.len() + i] == b[i]);
    }
}

/// An encoding has at least two bytes, and its first byte tells its kind:
/// it is `i`, a digit, `l` or `d`.
pub proof fn lemma_encoding_lead(d: Datum)
    ensures
        encoding(d).len() >= 2,
        match d {
            Datum::Int(_) => encoding(d)[0] == INT_OPEN,
            Datum::Text(_) => is_digit(encoding(d)[0]),
            Datum::List(_) => encoding(d)[0] == LIST_OPEN,
            Datum::Dict(_) => encoding(d)[0] == DICT_OPEN,
        },
{
    match d {
        Datum::Int(n) => {},
        Datum::Text(t) => {
            lemma_digits(t.len());
        },
        Datum::List(items) => {},
        Datum::Dict(entries) => {},
    }
}

/// Reading a value where the encoding of a canonical value stands yields
/// that value, and ends behind the encoding.
pub proof fn lemma_parse_encoding(s: Seq<u8>, pos: int, d: Datum, strict: bool)
    requires
        canonical(d),
        holds_at(s, pos, encoding(d)),
    ensures
        parse_value(s, pos, strict) == Ok::<(Datum, int), Failure>((d, pos + encoding(d).len())),
    decreases d, 0nat,
{
    lemma_encoding_lead(d);
    assert(s[pos + 0] == encoding(d)[0]);
    match d {
        Datum::Int(n) => {
            lemma_parse_int(s, pos, n);
        },
        Datum::Text(t) => {
            lemma_parse_text(s, pos, t);
        },
        Datum::List(items) => {
            let body = items_encoding(items, items.len());
            lemma_holds_split(s, pos, seq![LIST_OPEN] + body, seq![CLOSE]);
            lemma_holds_split(s, pos, seq![LIST_OPEN], body);
            assert(s[pos + 1 + body.len() + 0] == seq![CLOSE][0]);
            lemma_parse_items(s, pos + 1, items, 0, strict);
            assert(items.take(0) =~= Seq::<Datum>::empty());
        },
        Datum::Dict(entries) => {
            let body = entries_encoding(entries, entries.len());
            lemma_holds_split(s, pos, seq![DICT_OPEN] + body, seq![CLOSE]);
            lemma_holds_split(s, pos, seq![DICT_OPEN], body);
            assert(s[pos + 1 + body.len() + 0] == seq![CLOSE][0]);
            lemma_parse_entries(s, pos + 1, entries, 0, strict);
            assert(entries.take(0) =~= Entries::empty());
        },
    }
}

/// The encodings of the first items are the front of the encodings of more
/// of them.
pub proof fn lemma_items_front(items: Seq<Datum>, n: nat, m: nat)
    requires
        n <= m <= items.len(),
    ensures
        items_encoding(items, n).len() <= items_encoding(items, m).len(),
        items_encoding(items, n) == items_encoding(items, m).take(
            items_encoding(items, n).len() as int,
        ),
    decreases m,
{
    if n < m {
        lemma_items_front(items, n, (m - 1) as nat);
        assert(items_encoding(items, n) =~= items_encoding(items, m).take(
            items_encoding(items, n).len() as int,
        ));
    } else {
        assert(items_encoding(items, n) =~= items_encoding(items, m).take(
            items_encoding(items, n).len() as int,
        ));
    }
}

/// Reading the rest of a list where the encodings of canonical items stand,
/// closed by `e`, yields the items: here from item `from` on, with the items
/// in front of it read before.
pub proof fn lemma_parse_items(s: Seq<u8>, start: int, items: Seq<Datum>, from: nat, strict: bool)
    requires
        from <= items.len(),
        forall|i: int| 0 <= i < items.len() ==> canonical(#[trigger] items[i]),
        holds_at(s, start, items_encoding(items, items.len())),
        start + items_encoding(items, items.len()).len() < s.len(),
        s[start + items_encoding(items, items.len()).len()] == CLOSE,
    ensures
        parse_items(s, start + items_encoding(items, from).len(), items.take(from as int), strict)
            == Ok::<(Seq<Datum>, int), Failure>(
            (items, start + items_encoding(items, items.len()).len() + 1),
        ),
    decreases items, items.len() - from,
{
    let whole = items_encoding(items, items.len());
    let at = start + items_encoding(items, from).len();
    lemma_items_front(items, from, items.len());
    if from == items.len() {
        assert(items.take(from as int) =~= items);
    } else {
        let item = items[from as int];
        let next = (from + 1) as nat;
        lemma_items_front(items, next, items.len());
        assert(items_encoding(items, next) == items_encoding(items, from) + encoding(item));
        assert(holds_at(s, start, items_encoding(items, next))) by {
            assert forall|i: int| 0 <= i < items_encoding(items, next).len() implies s[start + i]
                == #[trigger] items_encoding(items, next)[i] by {
                assert(whole[i] == items_encoding(items, next)[i]);
            }
        }
        lemma_holds_split(s, start, items_encoding(items, from), encoding(item));
        lemma_encoding_lead(item);
        assert(s[at + 0] == encoding(item)[0]);
        lemma_parse_encoding(s, at, item, strict);
        assert(items.take(from as int).push(item) =~= items.take(next as int));
        lemma_parse_items(s, start, items, next, strict);
    }
}

/// The encodings of the first entries are the front of the encodings of
/// more of them.
pub proof fn lemma_entries_front(entries: Entries, n: nat, m: nat)
    requires
        n <= m <= entries.len(),
    ensures
        entries_encoding(entries, n).len() <= entries_encoding(entries, m).len(),
        entries_encoding(entries, n) == entries_encoding(entries, m).take(
            entries_encoding(entries, n).len() as int,
        ),
    decreases m,
{
    if n < m {
        lemma_entries_front(entries, n, (m - 1) as nat);
        assert(entries_encoding(entries, n) =~= entries_encoding(entries, m).take(
            entries_encoding(entries, n).len() as int,
        ));
    } else {
        assert(entries_encoding(entries, n) =~= entries_encoding(entries, m).take(
            entries_encoding(entries, n).len() as int,
        ));
    }
}

/// Reading the rest of a dictionary where the encodings of canonical
/// entries stand, closed by `e`, yields the entries: here from entry `from`
/// on, with the entries in front of it read before.
pub proof fn lemma_parse_entries(
    s: Seq<u8>,
    start: int,
    entries: Entries,
    from: nat,
    strict: bool,
)
    requires
        from <= entries.len(),
        keys_ascending(entries),
        forall|i: int| 0 <= i < entries.len() ==> canonical(#[trigger] entries[i].1),
        holds_at(s, start, entries_encoding(entries, entries.len())),
        start + entries_encoding(entries, entries.len()).len() < s.len(),
        s[start + entries_encoding(entries, entries.len()).len()] == CLOSE,
    ensures
        parse_entries(
            s,
            start + entries_encoding(entries, from).len(),
            entries.take(from as int),
            strict,
        ) == Ok::<(Entries, int), Failure>(
            (entries, start + entries_encoding(entries, entries.len()).len() + 1),
        ),
    decreases entries, entries.len() - from,
{
    let whole = entries_encoding(entries, entries.len());
    let at = start + entries_encoding(entries, from).len();
    lemma_entries_front(entries, from, entries.len());
    if from == entries.len() {
        assert(entries.take(from as int) =~= entries);
    } else {
        let key = entries[from as int].0;
        let value = entries[from as int].1;
        let raw = encode_utf8(key);
        let next = (from + 1) as nat;
        let done = entries.take(from as int);
        lemma_entries_front(entries, next, entries.len());
        assert(entries_encoding(entries, next) == entries_encoding(entries, from) + text_encoding(
            raw,
        ) + encoding(value));
        assert(holds_at(s, start, entries_encoding(entries, next))) by {
            assert forall|i: int| 0 <= i < entries_encoding(entries, next).len() implies s[start
                + i] == #[trigger] entries_encoding(entries, next)[i] by {
                assert(whole[i] == entries_encoding(entries, next)[i]);
            }
        }
        lemma_holds_split(
            s,
            start,
            entries_encoding(entries, from) + text_encoding(raw),
            encoding(value),
        );
        lemma_holds_split(s, start, entries_encoding(entries, from), text_encoding(raw));
        lemma_parse_text(s, at, raw);
        encode_utf8_valid_utf8(key);
        encode_utf8_decode_utf8(key);
        assert(keys_ascending(done)) by {
            assert forall|i: int, j: int| 0 <= i < j < done.len() implies key_lt(
                #[trigger] done[i].0,
                #[trigger] done[j].0,
            ) by {
                assert(key_lt(entries[i].0, entries[j].0));
            }
        }
        if done.len() > 0 {
            assert(done.last() == entries[from - 1]);
            assert(key_lt(entries[from - 1].0, entries[from as int].0));
        }
        lemma_with_entry_last(done, key, value);
        lemma_encoding_lead(value);
        lemma_parse_encoding(s, at + text_encoding(raw).len(), value, strict);
        assert(done.push((key, value)) =~= entries.take(next as int));
        lemma_parse_entries(s, start, entries, next, strict);
    }
}

/// Decoding inverts encoding: the canonical bytes of a canonical value
/// decode to that value, strictly or not.
pub proof fn lemma_decode_encode(d: Datum, strict: bool)
    requires
        canonical(d),
    ensures
        decoded(encoding(d), strict) == Ok::<Datum, Failure>(d),
{
    lemma_parse_encoding(encoding(d), 0, d, strict);
}

/// Encoding again what was decoded from an encoding gives the same bytes.
pub proof fn lemma_encode_decode_encode(d: Datum, strict: bool)
    requires
        canonical(d),
    ensures
        decoded(encoding(d), strict) matches Ok(again) && encoding(again) == encoding(d),
{
    lemma_decode_encode(d, strict);
}

} // verus!
