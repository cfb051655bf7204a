//! The encoder: from a value to its canonical bytes.

use vstd::prelude::*;
use crate::grammar::{decoded, Failure};
use crate::laws::lemma_decode_encode;
use crate::model::{
    canonical, digits, encoding, entries_encoding, int_text, items_encoding, text_encoding, Datum,
    CLOSE, COLON, DICT_OPEN, INT_OPEN, LIST_OPEN, MINUS, ZERO,
};
use crate::value::{lemma_list_view, Dict, Value};

verus! {

/// Appends the decimal digits of `n` to `out`.
fn write_digits(n: u64, out: &mut Vec<u8>)
    ensures
        final(out)@ == old(out)@ + digits(n as nat),
    decreases n,
{
    if n >= 10 {
        write_digits(n / 10, out);
    }
    out.push(ZERO + (n % 10) as u8);
    assert(final(out)@ =~= old(out)@ + digits(n as nat));
}

/// Appends the decimal form of `n` to `out`.
pub(crate) fn write_int(n: i64, out: &mut Vec<u8>)
    ensures
        final(out)@ == old(out)@ + int_text(n as int),
{
    if n < 0 {
        out.push(MINUS);
        let magnitude: u64 = if n == i64::MIN {
            9223372036854775808u64
        } else {
            (-n) as u64
        };
        write_digits(magnitude, out);
    } else {
        write_digits(n as u64, out);
    }
    assert(final(out)@ =~= old(out)@ + int_text(n as int));
}

/// Appends the canonical bytes of the byte string `t` to `out`.
fn write_text(t: &[u8], out: &mut Vec<u8>)
    ensures
        final(out)@ == old(out)@ + text_encoding(t@),
{
    write_digits(t.len() as u64, out);
    out.push(COLON);
    let mut i: usize = 0;
    while i < t.len()
        invariant
            i <= t.len(),
            out@ == old(out)@ + digits(t@.len()) + seq![COLON] + t@.take(i as int),
        decreases t.len() - i,
    {
        out.push(t[i]);
        i += 1;
        assert(t@.take(i as int) =~= t@.take(i - 1).push(t@[i - 1]));
    }
    assert(t@.take(i as int) =~= t@);
}

/// Appends the canonical bytes of `v` to `out`.
fn write_value(v: &Value, out: &mut Vec<u8>)
    ensures
        final(out)@ == old(out)@ + encoding(v@),
        canonical(v@),
    decreases v,
{
    match v {
        Value::Int(n) => {
            out.push(INT_OPEN);
            write_int(*n, out);
            out.push(CLOSE);
            assert(final(out)@ =~= old(out)@ + encoding(v@));
        },
        Value::Text(t) => {
            write_text(t.as_slice(), out);
        },
        Value::List(items) => {
            proof {
                lemma_list_view(*v);
            }
            let ghost model = v@->List_0;
            out.push(LIST_OPEN);
            let mut i: usize = 0;
            while i < items.len()
                invariant
                    i <= items.len(),
                    v is List,
                    v->List_0 == *items,
                    v@ == Datum::List(model),
                    model.len() == items@.len(),
                    forall|j: int| 0 <= j < items@.len() ==> (#[trigger] model[j]) == items@[j]@,
                    forall|j: int| 0 <= j < i ==> canonical(#[trigger] model[j]),
                    out@ == old(out)@ + seq![LIST_OPEN] + items_encoding(model, i as nat),
                decreases items.len() - i,
            {
                assert(decreases_to!(*v => v->List_0));
                write_value(&items[i], out);
                i += 1;
                assert(out@ =~= old(out)@ + seq![LIST_OPEN] + items_encoding(model, i as nat));
            }
            out.push(CLOSE);
            assert(final(out)@ =~= old(out)@ + encoding(v@));
        },
        Value::Dict(dict) => {
            let ghost model = dict@;
            let n = dict.len();
            out.push(DICT_OPEN);
            let mut i: usize = 0;
            while i < n
                invariant
                    i <= n,
                    n == dict@.len(),
                    v is Dict,
                    v->Dict_0 == *dict,
                    model == dict@,
                    forall|j: int| 0 <= j < i ==> canonical(#[trigger] model[j].1),
                    out@ == old(out)@ + seq![DICT_OPEN] + entries_encoding(model, i as nat),
                decreases n - i,
            {
                let key = dict.key_at(i);
                let value = dict.value_at(i);
                assert(decreases_to!(*v => v->Dict_0));
                write_text(key.as_bytes(), out);
                write_value(value, out);
                i += 1;
                assert(out@ =~= old(out)@ + seq![DICT_OPEN] + entries_encoding(model, i as nat));
            }
            out.push(CLOSE);
            assert(final(out)@ =~= old(out)@ + encoding(v@));
        },
    }
}

/// Encodes `value`. The result is its canonical form: every dictionary in
/// it has its keys in ascending order of their bytes, whatever the order in
/// which they were put in, and decoding the result, strictly or not, gives
/// the value back.
pub fn encode(value: &Value) -> (out: Vec<u8>)
    ensures
        out@ == encoding(value@),
        canonical(value@),
        decoded(out@, false) == Ok::<Datum, Failure>(value@),
        decoded(out@, true) == Ok::<Datum, Failure>(value@),
{
    let mut out: Vec<u8> = Vec::new();
    write_value(value, &mut out);
    proof {
        assert(out@ =~= encoding(value@));
        lemma_decode_encode(value@, false);
        lemma_decode_encode(value@, true);
    }
    out
}

} // verus!
