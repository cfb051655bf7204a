//! A value as text for a reader: not bencode, and not to be read back.

use vstd::prelude::*;
use vstd::pervasive::unreached;
use vstd::string::StringExecFns;
use vstd::utf8::{
    decode_utf8, encode_utf8, encode_utf8_decode_utf8, encode_utf8_valid_utf8, is_ascii_chars,
    is_ascii_chars_encode_utf8, valid_utf8,
};
use crate::encode::write_int;
use crate::laws::lemma_digits;
use crate::model::{digits, int_text, Datum, Entries};
use crate::value::{lemma_list_view, Dict, Value};

verus! {

/// The text that `String::from_utf8_lossy` makes of `bytes`: the string
/// they are where they are valid UTF-8, and else that string with a
/// replacement character for what is not.
pub uninterp spec fn lossy_text(bytes: Seq<u8>) -> Seq<char>;

/// `String::from_utf8_lossy`, as an owned string: the result is
/// `lossy_text` of the bytes, which for valid UTF-8 is the string that the
/// bytes are.
#[verifier::external_body]
fn lossy(bytes: &[u8]) -> (r: String)
    ensures
        r@ == lossy_text(bytes@),
        valid_utf8(bytes@) ==> r@ == decode_utf8(bytes@),
{
    String::from_utf8_lossy(bytes).into_owned()
}

/// The characters that the ASCII bytes `bytes` are.
pub open spec fn ascii(bytes: Seq<u8>) -> Seq<char> {
    Seq::new(bytes.len(), |i: int| bytes[i] as char)
}

/// What is shown of `d`: an integer in decimal, a byte string between
/// double quotes, a list between square brackets, a dictionary between
/// braces.
pub open spec fn rendering(d: Datum) -> Seq<char>
    decreases d, 0nat,
{
    match d {
        Datum::Int(n) => ascii(int_text(n as int)),
        Datum::Text(t) => seq!['"'] + lossy_text(t) + seq!['"'],
        Datum::List(items) => seq!['['] + items_rendering(items, items.len()) + seq![']'],
        Datum::Dict(entries) => if entries.len() == 0 {
            seq!['{', '}']
        } else {
            seq!['{', ' '] + entries_rendering(entries, entries.len()) + seq![' ', '}']
        },
    }
}

/// What is shown of the first `n` of `items`, with a comma and a space
/// between two of them.
pub open spec fn items_rendering(items: Seq<Datum>, n: nat) -> Seq<char>
    decreases items, n,
{
    if n == 0 || n > items.len() {
        Seq::empty()
    } else if n == 1 {
        rendering(items[0])
    } else {
        items_rendering(items, (n - 1) as nat) + seq![',', ' '] + rendering(items[n - 1])
    }
}

/// What is shown of the first `n` of `entries`: each key, a colon, a space
/// and the value, with a comma and a space between two entries.
pub open spec fn entries_rendering(entries: Entries, n: nat) -> Seq<char>
    decreases entries, n,
{
    if n == 0 || n > entries.len() {
        Seq::empty()
    } else if n == 1 {
        entries[0].0 + seq![':', ' '] + rendering(entries[0].1)
    } else {
        entries_rendering(entries, (n - 1) as nat) + seq![',', ' '] + entries[n - 1].0 + seq![
            ':',
            ' ',
        ] + rendering(entries[n - 1].1)
    }
}

/// ASCII bytes are the UTF-8 form of the characters that they are.
pub proof fn lemma_ascii_utf8(bytes: Seq<u8>)
    requires
        forall|i: int| 0 <= i < bytes.len() ==> #[trigger] bytes[i] < 128,
    ensures
        encode_utf8(ascii(bytes)) == bytes,
        valid_utf8(bytes),
        decode_utf8(bytes) == ascii(bytes),
{
    let chars = ascii(bytes);
    assert(is_ascii_chars(chars));
    is_ascii_chars_encode_utf8(chars);
    assert(encode_utf8(chars) =~= bytes) by {
        assert forall|i: int| 0 <= i < bytes.len() implies encode_utf8(chars)[i] == bytes[i] by {
            assert(chars[i] as u8 == encode_utf8(chars)[i]);
            assert(bytes[i] < 128);
        }
    }
    encode_utf8_valid_utf8(chars);
    encode_utf8_decode_utf8(chars);
}

/// Appends to `out` the characters that the ASCII bytes `bytes` are.
fn push_ascii(bytes: &[u8], out: &mut String)
    requires
        forall|i: int| 0 <= i < bytes@.len() ==> #[trigger] bytes@[i] < 128,
    ensures
        final(out)@ == old(out)@ + ascii(bytes@),
{
    proof {
        lemma_ascii_utf8(bytes@);
    }
    match core::str::from_utf8(bytes) {
        Ok(s) => {
            proof {
                encode_utf8_decode_utf8(s@);
            }
            out.append(s);
        },
        Err(_) => unreached(),
    }
}

/// Appends `shown` to `out` between double quotes.
pub fn push_quoted(shown: &str, out: &mut String)
    ensures
        final(out)@ == old(out)@ + seq!['"'] + shown@ + seq!['"'],
{
    proof {
        reveal_strlit("\"");
    }
    out.append("\"");
    out.append(shown);
    out.append("\"");
    assert(final(out)@ =~= old(out)@ + seq!['"'] + shown@ + seq!['"']);
}

/// Appends to `out` what is shown of `v`.
fn write_rendering(v: &Value, out: &mut String)
    ensures
        final(out)@ == old(out)@ + rendering(v@),
    decreases v,
{
    proof {
        reveal_strlit("[");
        reveal_strlit("]");
        reveal_strlit(", ");
        reveal_strlit(": ");
        reveal_strlit("{}");
        reveal_strlit("{ ");
        reveal_strlit(" }");
    }
    match v {
        Value::Int(n) => {
            let mut text: Vec<u8> = Vec::new();
            write_int(*n, &mut text);
            proof {
                let magnitude: nat = if *n < 0 {
                    (-*n) as nat
                } else {
                    *n as nat
                };
                lemma_digits(magnitude);
                assert(text@ =~= int_text(*n as int));
                assert forall|i: int| 0 <= i < text@.len() implies #[trigger] text@[i] < 128 by {
                    if *n < 0 {
                        if i > 0 {
                            assert(text@[i] == digits(magnitude)[i - 1]);
                        }
                    } else {
                        assert(text@[i] == digits(magnitude)[i]);
                    }
                }
            }
            push_ascii(text.as_slice(), out);
        },
        Value::Text(t) => {
            let shown = lossy(t.as_slice());
            push_quoted(shown.as_str(), out);
            assert(final(out)@ =~= old(out)@ + rendering(v@));
        },
        Value::List(items) => {
            proof {
                lemma_list_view(*v);
            }
            let ghost model = v@->List_0;
            out.append("[");
            let mut i: usize = 0;
            while i < items.len()
                invariant
                    i <= items.len(),
                    v is List,
                    v->List_0 == *items,
                    v@ == Datum::List(model),
                    model.len() == items@.len(),
                    forall|j: int| 0 <= j < items@.len() ==> (#[trigger] model[j]) == items@[j]@,
                    ", "@ == seq![',', ' '],
                    out@ == old(out)@ + seq!['['] + items_rendering(model, i as nat),
                decreases items.len() - i,
            {
                if i > 0 {
                    out.append(", ");
                }
                assert(decreases_to!(*v => v->List_0));
                write_rendering(&items[i], out);
                i += 1;
                assert(out@ =~= old(out)@ + seq!['['] + items_rendering(model, i as nat));
            }
            out.append("]");
            assert(final(out)@ =~= old(out)@ + rendering(v@));
        },
        Value::Dict(dict) => {
            let ghost model = dict@;
            let n = dict.len();
            if n == 0 {
                out.append("{}");
                assert(final(out)@ =~= old(out)@ + rendering(v@));
            } else {
                out.append("{ ");
                let mut i: usize = 0;
                while i < n
                    invariant
                        i <= n,
                        n == dict@.len(),
                        v is Dict,
                        v->Dict_0 == *dict,
                        model == dict@,
                        ", "@ == seq![',', ' '],
                        ": "@ == seq![':', ' '],
                        out@ == old(out)@ + seq!['{', ' '] + entries_rendering(model, i as nat),
                    decreases n - i,
                {
                    if i > 0 {
                        out.append(", ");
                    }
                    out.append(dict.key_at(i));
                    out.append(": ");
                    let value = dict.value_at(i);
                    assert(decreases_to!(*v => v->Dict_0));
                    write_rendering(value, out);
                    i += 1;
                    assert(out@ =~= old(out)@ + seq!['{', ' '] + entries_rendering(
                        model,
                        i as nat,
                    ));
                }
                out.append(" }");
                assert(final(out)@ =~= old(out)@ + rendering(v@));
            }
        },
    }
}

impl Value {
    /// The value as text for a reader: an integer in decimal, a byte string
    /// between double quotes with a replacement character for what is not
    /// UTF-8, a list between square brackets, a dictionary between braces.
    pub fn to_string(&self) -> (r: String)
        ensures
            r@ == rendering(self@),
    {
        let mut out = String::new();
        write_rendering(self, &mut out);
        assert(out@ =~= rendering(self@));
        out
    }
}

} // verus!
