//! What the decoder accepts: every value it yields is canonical, and read
//! strictly it accepts nothing but canonical encodings.

use vstd::prelude::*;
use vstd::utf8::{decode_utf8, decode_utf8_encode_utf8, encode_utf8};
use crate::entries::{lemma_rank_bound, lemma_with_entry_ascending, lemma_with_entry_last};
use crate::grammar::{
    decoded, digit_count, digits_end, digits_value, is_digit, parse_entries, parse_int,
    parse_items, parse_text, parse_value, Failure,
};
use crate::laws::lemma_decode_encode;
use crate::model::{
    canonical, digits, encoding, entries_encoding, items_encoding, keys_ascending, rank,
    text_encoding, with_entry, Datum, Entries, CLOSE, DICT_OPEN, INT_OPEN, LIST_OPEN, MINUS, ZERO,
};

verus! {

/// The digits in a row from `from` on are digits, and none stands behind
/// them.
pub proof fn lemma_digit_count(s: Seq<u8>, from: int)
    requires
        0 <= from <= s.len(),
    ensures
        from + digit_count(s, from) <= s.len(),
        forall|i: int| from <= i < from + digit_count(s, from) ==> is_digit(#[trigger] s[i]),
        from + digit_count(s, from) == s.len() || !is_digit(s[from + digit_count(s, from)]),
    decreases s.len() - from,
{
    if from < s.len() && is_digit(s[from]) {
        lemma_digit_count(s, from + 1);
    }
}

/// Digits that do not start with zero denote a number that is not zero.
pub proof fn lemma_value_positive(t: Seq<u8>)
    requires
        t.len() >= 1,
        forall|i: int| 0 <= i < t.len() ==> is_digit(#[trigger] t[i]),
        t[0] != ZERO,
    ensures
        digits_value(t) >= 1,
    decreases t.len(),
{
    if t.len() > 1 {
        assert(t.drop_last()[0] == t[0]);
        lemma_value_positive(t.drop_last());
    } else {
        assert(t.drop_last() =~= Seq::<u8>::empty());
        assert(digits_value(t.drop_last()) == 0);
    }
}

/// Digits without a leading zero are the digits of the number they denote.
pub proof fn lemma_digits_of_value(t: Seq<u8>)
    requires
        t.len() >= 1,
        forall|i: int| 0 <= i < t.len() ==> is_digit(#[trigger] t[i]),
        t[0] != ZERO || t.len() == 1,
    ensures
        digits(digits_value(t)) == t,
    decreases t.len(),
{
    let front = t.drop_last();
    if t.len() == 1 {
        assert(front =~= Seq::<u8>::empty());
        assert(digits_value(front) == 0);
        assert(digits(digits_value(t)) =~= t);
    } else {
        assert(front[0] == t[0]);
        lemma_value_positive(front);
        lemma_digits_of_value(front);
        let v = digits_value(t);
        assert(v == digits_value(front) * 10 + (t.last() - ZERO));
        assert(v / 10 == digits_value(front));
        assert(v % 10 == t.last() - ZERO);
        assert(digits(v) =~= t);
    }
}

/// An integer that is read was written in canonical form.
pub proof fn lemma_int_accepted(s: Seq<u8>, pos: int, n: i64, next: int)
    requires
        0 <= pos < s.len(),
        s[pos] == INT_OPEN,
        parse_int(s, pos) == Ok::<(i64, int), Failure>((n, next)),
    ensures
        pos < next <= s.len(),
        s.subrange(pos, next) == encoding(Datum::Int(n)),
{
    let negative = pos + 1 < s.len() && s[pos + 1] == MINUS;
    let first = if negative {
        pos + 2
    } else {
        pos + 1
    };
    lemma_digit_count(s, first);
    let end = digits_end(s, first);
    let t = s.subrange(first, end);
    assert(digit_count(s, first) >= 1);
    if s[first] == ZERO {
        assert(!is_digit(s[first + 1]));
        lemma_digit_count(s, first + 1);
        assert(digit_count(s, first + 1) == 0);
        assert(end == first + 1);
    }
    assert forall|i: int| 0 <= i < t.len() implies is_digit(#[trigger] t[i]) by {
        assert(t[i] == s[first + i]);
    }
    assert(t[0] == s[first]);
    lemma_digits_of_value(t);
    if negative {
        lemma_value_positive(t);
    }
    assert(s.subrange(pos, next) =~= encoding(Datum::Int(n)));
}

/// A byte string that is read was written in canonical form.
pub proof fn lemma_text_accepted(s: Seq<u8>, pos: int, t: Seq<u8>, next: int)
    requires
        0 <= pos < s.len(),
        is_digit(s[pos]),
        parse_text(s, pos) == Ok::<(Seq<u8>, int), Failure>((t, next)),
    ensures
        pos < next <= s.len(),
        s.subrange(pos, next) == text_encoding(t),
{
    lemma_digit_count(s, pos);
    let end = digits_end(s, pos);
    let prefix = s.subrange(pos, end);
    if s[pos] == ZERO {
        assert(!is_digit(s[pos + 1]));
        lemma_digit_count(s, pos + 1);
        assert(digit_count(s, pos + 1) == 0);
        assert(end == pos + 1);
    }
    assert forall|i: int| 0 <= i < prefix.len() implies is_digit(#[trigger] prefix[i]) by {
        assert(prefix[i] == s[pos + i]);
    }
    assert(prefix[0] == s[pos]);
    lemma_digits_of_value(prefix);
    assert(s.subrange(pos, next) =~= text_encoding(t));
}

/// The values of `entries` are canonical.
pub open spec fn values_canonical(entries: Entries) -> bool {
    forall|i: int| 0 <= i < entries.len() ==> canonical(#[trigger] entries[i].1)
}

/// A value that is read is canonical and ends inside the input; read
/// strictly, the bytes it was read from are its encoding.
pub proof fn lemma_value_accepted(s: Seq<u8>, pos: int, strict: bool, d: Datum, next: int)
    requires
        parse_value(s, pos, strict) == Ok::<(Datum, int), Failure>((d, next)),
    ensures
        0 <= pos < next <= s.len(),
        canonical(d),
        strict ==> s.subrange(pos, next) == encoding(d),
    decreases s.len() - pos, 0nat,
{
    if s[pos] == INT_OPEN {
        lemma_int_accepted(s, pos, d->Int_0, next);
    } else if is_digit(s[pos]) {
        lemma_text_accepted(s, pos, d->Text_0, next);
    } else if s[pos] == LIST_OPEN {
        let items = d->List_0;
        let empty = Seq::<Datum>::empty();
        lemma_items_accepted(s, pos + 1, strict, empty, items, next);
        if strict {
            assert(items_encoding(items, 0) =~= Seq::<u8>::empty());
            assert(s.subrange(pos, next) =~= seq![LIST_OPEN] + s.subrange(pos + 1, next - 1)
                + seq![CLOSE]);
        }
    } else {
        let entries = d->Dict_0;
        let empty = Entries::empty();
        lemma_entries_accepted(s, pos + 1, strict, empty, entries, next);
        if strict {
            assert(entries_encoding(entries, 0) =~= Seq::<u8>::empty());
            assert(s.subrange(pos, next) =~= seq![DICT_OPEN] + s.subrange(pos + 1, next - 1)
                + seq![CLOSE]);
        }
    }
}

/// The items of a list that is read: those read before stay in front, the
/// others are canonical, and read strictly the bytes up to the closing `e`
/// are their encodings.
pub proof fn lemma_items_accepted(
    s: Seq<u8>,
    pos: int,
    strict: bool,
    done: Seq<Datum>,
    items: Seq<Datum>,
    next: int,
)
    requires
        parse_items(s, pos, done, strict) == Ok::<(Seq<Datum>, int), Failure>((items, next)),
        forall|i: int| 0 <= i < done.len() ==> canonical(#[trigger] done[i]),
    ensures
        0 <= pos < next <= s.len(),
        s[next - 1] == CLOSE,
        done.len() <= items.len(),
        items.take(done.len() as int) == done,
        forall|i: int| 0 <= i < items.len() ==> canonical(#[trigger] items[i]),
        strict ==> items_encoding(items, items.len()) == items_encoding(items, done.len())
            + s.subrange(pos, next - 1),
    decreases s.len() - pos, 1nat,
{
    if s[pos] == CLOSE {
        assert(items.take(done.len() as int) =~= done);
        assert(items_encoding(items, items.len()) =~= items_encoding(items, done.len())
            + s.subrange(pos, next - 1));
    } else {
        let (item, mid) = parse_value(s, pos, strict)->Ok_0;
        lemma_value_accepted(s, pos, strict, item, mid);
        let more = done.push(item);
        lemma_items_accepted(s, mid, strict, more, items, next);
        assert(items.take(done.len() as int) =~= done) by {
            assert forall|i: int| 0 <= i < done.len() implies items[i] == done[i] by {
                assert(items.take(more.len() as int)[i] == more[i]);
            }
        }
        if strict {
            assert(items[done.len() as int] == item) by {
                assert(items.take(more.len() as int)[done.len() as int] == more[done.len() as int]);
            }
            assert(items_encoding(items, more.len()) == items_encoding(items, done.len())
                + encoding(item));
            assert(s.subrange(pos, next - 1) =~= s.subrange(pos, mid) + s.subrange(mid, next - 1));
            assert(items_encoding(items, items.len()) =~= items_encoding(items, done.len())
                + s.subrange(pos, next - 1));
        }
    }
}

/// Putting a key with a canonical value into entries with canonical values
/// leaves all values canonical.
pub proof fn lemma_with_entry_canonical(
    done: Entries,
    key: Seq<char>,
    value: Datum,
)
    requires
        values_canonical(done),
        canonical(value),
    ensures
        values_canonical(with_entry(done, key, value)),
{
    let more = with_entry(done, key, value);
    let place = rank(done, key, done.len()) as int;
    lemma_rank_bound(done, key, done.len());
    assert forall|i: int| 0 <= i < more.len() implies canonical(#[trigger] more[i].1) by {
        if i < place {
            assert(more[i] == done[i]);
        } else if i == place {
            assert(more[i] == (key, value));
        } else {
            assert(more[i] == done[i - 1]);
        }
    }
}

/// The first entry of the rest of a dictionary that is read: its key, its
/// value and the offset behind it. The entries with it among them are in
/// ascending order of keys with canonical values, and the rest is read
/// from that offset on; read strictly, the entry goes to the end and the
/// bytes it was read from are its encoding.
pub proof fn lemma_entry_accepted(
    s: Seq<u8>,
    pos: int,
    strict: bool,
    done: Entries,
) -> (r: (Seq<char>, Datum, int))
    requires
        parse_entries(s, pos, done, strict) is Ok,
        0 <= pos < s.len(),
        s[pos] != CLOSE,
        keys_ascending(done),
        values_canonical(done),
    ensures
        pos < r.2 <= s.len(),
        keys_ascending(with_entry(done, r.0, r.1)),
        values_canonical(with_entry(done, r.0, r.1)),
        parse_entries(s, pos, done, strict) == parse_entries(
            s,
            r.2,
            with_entry(done, r.0, r.1),
            strict,
        ),
        strict ==> with_entry(done, r.0, r.1) == done.push((r.0, r.1)),
        strict ==> s.subrange(pos, r.2) == text_encoding(encode_utf8(r.0)) + encoding(r.1),
    decreases s.len() - pos, 0nat,
{
    let (raw, at) = parse_text(s, pos)->Ok_0;
    lemma_text_accepted(s, pos, raw, at);
    let key = decode_utf8(raw);
    decode_utf8_encode_utf8(raw);
    let (value, mid) = parse_value(s, at, strict)->Ok_0;
    lemma_value_accepted(s, at, strict, value, mid);
    lemma_with_entry_ascending(done, key, value);
    lemma_with_entry_canonical(done, key, value);
    if strict {
        lemma_with_entry_last(done, key, value);
        assert(s.subrange(pos, mid) =~= s.subrange(pos, at) + s.subrange(at, mid));
    }
    (key, value, mid)
}

/// The entries of a dictionary that is read: they are in ascending order
/// of keys with canonical values, and read strictly those read before stay
/// in front and the bytes up to the closing `e` are the encodings of the
/// others.
pub proof fn lemma_entries_accepted(
    s: Seq<u8>,
    pos: int,
    strict: bool,
    done: Entries,
    entries: Entries,
    next: int,
)
    requires
        parse_entries(s, pos, done, strict) == Ok::<(Entries, int), Failure>(
            (entries, next),
        ),
        keys_ascending(done),
        values_canonical(done),
    ensures
        0 <= pos < next <= s.len(),
        s[next - 1] == CLOSE,
        keys_ascending(entries),
        values_canonical(entries),
        strict ==> done.len() <= entries.len() && entries.take(done.len() as int) == done
            && entries_encoding(entries, entries.len()) == entries_encoding(entries, done.len())
            + s.subrange(pos, next - 1),
    decreases s.len() - pos, 1nat,
{
    if s[pos] == CLOSE {
        assert(entries.take(done.len() as int) =~= done);
        assert(entries_encoding(entries, entries.len()) =~= entries_encoding(entries, done.len())
            + s.subrange(pos, next - 1));
    } else {
        let (key, value, mid) = lemma_entry_accepted(s, pos, strict, done);
        let more = with_entry(done, key, value);
        lemma_entries_accepted(s, mid, strict, more, entries, next);
        if strict {
            lemma_entries_joined(s, pos, mid, next, done, key, value, entries);
        }
    }
}

/// Joins what holds of one entry with what holds of those behind it.
proof fn lemma_entries_joined(
    s: Seq<u8>,
    pos: int,
    mid: int,
    next: int,
    done: Entries,
    key: Seq<char>,
    value: Datum,
    entries: Entries,
)
    requires
        0 <= pos < mid < next <= s.len(),
        s.subrange(pos, mid) == text_encoding(encode_utf8(key)) + encoding(value),
        done.len() < entries.len(),
        entries.take((done.len() + 1) as int) == done.push((key, value)),
        entries_encoding(entries, entries.len()) == entries_encoding(
            entries,
            (done.len() + 1) as nat,
        ) + s.subrange(mid, next - 1),
    ensures
        entries.take(done.len() as int) == done,
        entries_encoding(entries, entries.len()) == entries_encoding(entries, done.len())
            + s.subrange(pos, next - 1),
{
    let more = done.push((key, value));
    let n = done.len() as int;
    assert(entries.take(n) =~= done) by {
        assert forall|i: int| 0 <= i < n implies entries[i] == done[i] by {
            assert(entries.take(n + 1)[i] == more[i]);
        }
    }
    assert(entries[n] == (key, value)) by {
        assert(entries.take(n + 1)[n] == more[n]);
    }
    assert(entries_encoding(entries, (n + 1) as nat) == entries_encoding(entries, n as nat)
        + text_encoding(encode_utf8(key)) + encoding(value));
    assert(s.subrange(pos, next - 1) =~= s.subrange(pos, mid) + s.subrange(mid, next - 1));
    assert(entries_encoding(entries, entries.len()) =~= entries_encoding(entries, n as nat)
        + s.subrange(pos, next - 1));
}

/// What is decoded is canonical.
pub proof fn lemma_decoded_canonical(s: Seq<u8>, strict: bool)
    ensures
        decoded(s, strict) matches Ok(d) ==> canonical(d),
{
    if let Ok(d) = decoded(s, strict) {
        let next = parse_value(s, 0, strict)->Ok_0.1;
        lemma_value_accepted(s, 0, strict, d, next);
    }
}

/// Strict decoding accepts the canonical encodings and nothing else: it
/// yields a value exactly for the bytes that are the encoding of that
/// value, which is canonical.
pub proof fn lemma_strict_accepts_encodings(s: Seq<u8>, d: Datum)
    ensures
        decoded(s, true) == Ok::<Datum, Failure>(d) <==> canonical(d) && s == encoding(d),
{
    if decoded(s, true) == Ok::<Datum, Failure>(d) {
        let next = parse_value(s, 0, true)->Ok_0.1;
        lemma_value_accepted(s, 0, true, d, next);
        assert(s.subrange(0, next) =~= s);
    }
    if canonical(d) && s == encoding(d) {
        lemma_decode_encode(d, true);
    }
}

} // verus!
