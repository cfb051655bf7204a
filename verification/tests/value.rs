use std::collections::HashMap;

use bende::{decode, decode_strict, encode, Dict, Error, ErrorKind, Value};

#[test]
fn encode_value_int() {
    let val = Value::Int(1995);
    assert_eq!(encode(&val), b"i1995e");
}

#[test]
fn encode_value_text() {
    let val = Value::Text(b"foo".to_vec());
    assert_eq!(encode(&val), b"3:foo");
}

#[test]
fn encode_value_list() {
    let val = Value::List(vec![Value::Int(1995), Value::Text(b"foo".to_vec())]);
    assert_eq!(encode(&val), b"li1995e3:fooe");
}

#[test]
fn encode_value_dict() {
    let mut map = HashMap::new();
    map.insert("foo".to_string(), Value::Int(1995));
    map.insert("bar".to_string(), Value::Text(b"faz".to_vec()));

    assert_eq!(encode(&Value::from(map)), b"d3:bar3:faz3:fooi1995ee");
}

#[test]
fn decode_value_int() {
    assert_eq!(decode(b"i1995e").unwrap(), Value::Int(1995));
}

#[test]
fn decode_value_text() {
    assert_eq!(decode(b"3:foo").unwrap(), Value::Text(b"foo".to_vec()));
}

#[test]
fn decode_value_list() {
    assert_eq!(
        decode(b"li1995e3:fooe").unwrap(),
        Value::List(vec![Value::Int(1995), Value::Text(b"foo".to_vec())])
    )
}

#[test]
fn decode_value_dict() {
    let mut map = Dict::new();
    map.insert("foo".to_string(), Value::Int(1995));
    map.insert("bar".to_string(), Value::Text(b"faz".to_vec()));
    assert_eq!(decode(b"d3:bar3:faz3:fooi1995ee").unwrap(), Value::Dict(map))
}

fn fails(bytes: &[u8], kind: ErrorKind, offset: usize) {
    assert_eq!(decode(bytes), Err(Error { kind, offset }));
}

#[test]
fn integers_are_written_without_padding() {
    assert_eq!(encode(&Value::Int(0)), b"i0e");
    assert_eq!(encode(&Value::Int(-5)), b"i-5e");
    assert_eq!(encode(&Value::Int(10)), b"i10e");
    assert_eq!(encode(&Value::Int(i64::MAX)), b"i9223372036854775807e");
    assert_eq!(encode(&Value::Int(i64::MIN)), b"i-9223372036854775808e");
}

#[test]
fn padded_integers_are_refused() {
    fails(b"i007e", ErrorKind::InvalidInteger, 2);
    fails(b"i-0e", ErrorKind::InvalidInteger, 2);
    fails(b"i-e", ErrorKind::InvalidInteger, 2);
    fails(b"ie", ErrorKind::InvalidInteger, 1);
    fails(b"i1x2e", ErrorKind::InvalidInteger, 2);
    fails(b"i--1e", ErrorKind::InvalidInteger, 2);
}

#[test]
fn integers_at_the_limits() {
    assert_eq!(decode(b"i0e"), Ok(Value::Int(0)));
    assert_eq!(decode(b"i-5e"), Ok(Value::Int(-5)));
    assert_eq!(decode(b"i9223372036854775807e"), Ok(Value::Int(i64::MAX)));
    assert_eq!(decode(b"i-9223372036854775808e"), Ok(Value::Int(i64::MIN)));
    fails(b"i9223372036854775808e", ErrorKind::InvalidInteger, 0);
    fails(b"i-9223372036854775809e", ErrorKind::InvalidInteger, 0);
    fails(b"i99999999999999999999999999e", ErrorKind::InvalidInteger, 0);
    fails(b"li18446744073709551616ee", ErrorKind::InvalidInteger, 1);
}

#[test]
fn input_that_ends_early() {
    fails(b"", ErrorKind::UnexpectedEnd, 0);
    fails(b"i", ErrorKind::UnexpectedEnd, 1);
    fails(b"i-", ErrorKind::UnexpectedEnd, 2);
    fails(b"i12", ErrorKind::UnexpectedEnd, 3);
    fails(b"i0", ErrorKind::UnexpectedEnd, 2);
    fails(b"4:foo", ErrorKind::UnexpectedEnd, 5);
    fails(b"3", ErrorKind::UnexpectedEnd, 1);
    fails(b"0", ErrorKind::UnexpectedEnd, 1);
    fails(b"l", ErrorKind::UnexpectedEnd, 1);
    fails(b"li1e", ErrorKind::UnexpectedEnd, 4);
    fails(b"d", ErrorKind::UnexpectedEnd, 1);
    fails(b"d3:foo", ErrorKind::UnexpectedEnd, 6);
    fails(b"99999999999999999999999999:x", ErrorKind::UnexpectedEnd, 28);
}

#[test]
fn text_with_its_length() {
    assert_eq!(decode(b"0:"), Ok(Value::Text(vec![])));
    assert_eq!(decode(b"3:foo"), Ok(Value::Text(b"foo".to_vec())));
    assert_eq!(decode(b"2:\xff\x00"), Ok(Value::Text(vec![0xff, 0x00])));
    assert_eq!(encode(&Value::Text(vec![])), b"0:");
    assert_eq!(encode(&Value::Text(b"0123456789".to_vec())), b"10:0123456789");
    assert_eq!(encode(&Value::Text(vec![0xff, 0x00])), b"2:\xff\x00");
}

#[test]
fn malformed_lengths_are_refused() {
    fails(b"03:foo", ErrorKind::InvalidLength, 1);
    fails(b"00:", ErrorKind::InvalidLength, 1);
    fails(b"3x:foo", ErrorKind::InvalidLength, 1);
    fails(b"3foo", ErrorKind::InvalidLength, 1);
    fails(b"-3:foo", ErrorKind::InvalidLength, 0);
    fails(b"d-1:ai1ee", ErrorKind::InvalidLength, 1);
}

#[test]
fn unknown_tokens_are_refused() {
    fails(b"x", ErrorKind::InvalidToken, 0);
    fails(b"e", ErrorKind::InvalidToken, 0);
    fails(b"lxe", ErrorKind::InvalidToken, 1);
    fails(b"di1ei2ee", ErrorKind::InvalidToken, 1);
    fails(b"d1:axe", ErrorKind::InvalidToken, 4);
}

#[test]
fn trailing_data_is_refused() {
    fails(b"i1ex", ErrorKind::TrailingData, 3);
    fails(b"3:foobar", ErrorKind::TrailingData, 5);
    fails(b"lee", ErrorKind::TrailingData, 2);
}

#[test]
fn duplicate_keys_are_refused() {
    fails(b"d1:ai1e1:ai2ee", ErrorKind::DuplicateKey, 7);
    fails(b"d1:ai1e1:bi2e1:ai3ee", ErrorKind::DuplicateKey, 13);
    assert_eq!(
        decode_strict(b"d1:ai1e1:ai2ee"),
        Err(Error { kind: ErrorKind::DuplicateKey, offset: 7 })
    );
}

#[test]
fn keys_must_be_utf8() {
    fails(b"d1:\xffi1ee", ErrorKind::InvalidUtf8, 1);
    fails(b"d2:\xc3\x28i1ee", ErrorKind::InvalidUtf8, 1);
    let mut map = Dict::new();
    map.insert("\u{e9}".to_string(), Value::Int(1));
    assert_eq!(decode(b"d2:\xc3\xa9i1ee"), Ok(Value::Dict(map)));
}

#[test]
fn empty_containers() {
    assert_eq!(decode(b"le"), Ok(Value::List(vec![])));
    assert_eq!(decode(b"de"), Ok(Value::Dict(Dict::new())));
    assert_eq!(encode(&Value::List(vec![])), b"le");
    assert_eq!(encode(&Value::Dict(Dict::new())), b"de");
}

#[test]
fn nested_containers() {
    let mut inner = Dict::new();
    inner.insert("k".to_string(), Value::List(vec![Value::Int(-1), Value::List(vec![])]));
    let value = Value::List(vec![Value::Dict(inner), Value::Text(b"x".to_vec())]);
    let bytes = b"ld1:kli-1eleee1:xe";
    assert_eq!(encode(&value), bytes);
    assert_eq!(decode(bytes), Ok(value));
}

#[test]
fn unsorted_keys_are_put_in_order() {
    let mut map = Dict::new();
    map.insert("a".to_string(), Value::Int(1));
    map.insert("b".to_string(), Value::Int(2));
    map.insert("c".to_string(), Value::Int(3));
    let value = decode(b"d1:ci3e1:ai1e1:bi2ee").unwrap();
    assert_eq!(value, Value::Dict(map));
    assert_eq!(encode(&value), b"d1:ai1e1:bi2e1:ci3ee");
}

#[test]
fn strict_decoding_refuses_unsorted_keys() {
    assert_eq!(
        decode_strict(b"d1:ci3e1:ai1e1:bi2ee"),
        Err(Error { kind: ErrorKind::UnsortedKeys, offset: 7 })
    );
    assert_eq!(decode_strict(b"d1:ai1e1:bi2e1:ci3ee"), decode(b"d1:ai1e1:bi2e1:ci3ee"));
    assert!(decode_strict(b"d1:ai1e1:bi2e1:ci3ee").is_ok());
}

#[test]
fn keys_are_ordered_by_their_bytes() {
    let mut map = Dict::new();
    map.insert("\u{e9}".to_string(), Value::Int(1));
    map.insert("z".to_string(), Value::Int(2));
    map.insert("Z".to_string(), Value::Int(3));
    map.insert("ab".to_string(), Value::Int(4));
    map.insert("a".to_string(), Value::Int(5));
    map.insert("".to_string(), Value::Int(6));
    assert_eq!(
        encode(&Value::Dict(map)),
        b"d0:i6e1:Zi3e1:ai5e2:abi4e1:zi2e2:\xc3\xa9i1ee".to_vec()
    );
}

#[test]
fn insertion_order_does_not_show() {
    let mut one = Dict::new();
    one.insert("foo".to_string(), Value::Int(1));
    one.insert("bar".to_string(), Value::Int(2));
    let mut other = Dict::new();
    other.insert("bar".to_string(), Value::Int(2));
    other.insert("foo".to_string(), Value::Int(1));
    assert_eq!(one, other);
    assert_eq!(encode(&Value::Dict(one)), encode(&Value::Dict(other)));
}

#[test]
fn decoding_inverts_encoding() {
    let mut map = Dict::new();
    map.insert("spam".to_string(), Value::List(vec![Value::Int(0), Value::Text(vec![1, 2, 3])]));
    map.insert("eggs".to_string(), Value::Int(i64::MIN));
    map.insert("".to_string(), Value::Dict(Dict::new()));
    let value = Value::List(vec![Value::Dict(map), Value::Int(7), Value::Text(vec![])]);
    let bytes = encode(&value);
    assert_eq!(decode(&bytes), Ok(value.clone()));
    assert_eq!(decode_strict(&bytes), Ok(value.clone()));
    assert_eq!(encode(&decode(&bytes).unwrap()), bytes);
}

#[test]
fn dict_holds_one_value_for_each_key() {
    let mut map = Dict::new();
    assert!(map.is_empty());
    assert_eq!(map.insert("b".to_string(), Value::Int(1)), None);
    assert_eq!(map.insert("a".to_string(), Value::Int(2)), None);
    assert_eq!(map.insert("b".to_string(), Value::Int(3)), Some(Value::Int(1)));
    assert_eq!(map.len(), 2);
    assert!(map.contains_key("a"));
    assert!(!map.contains_key("c"));
    assert_eq!(map.get("b"), Some(&Value::Int(3)));
    assert_eq!(map.get("c"), None);
    assert_eq!(map.key_at(0), "a");
    assert_eq!(map.key_at(1), "b");
    assert_eq!(map.value_at(0), &Value::Int(2));
    assert_eq!(map.remove("a"), Some(Value::Int(2)));
    assert_eq!(map.remove("a"), None);
    assert_eq!(map.len(), 1);
    assert_eq!(map.key_at(0), "b");
}

#[test]
fn pairs_are_sorted_and_the_later_stays() {
    let dict = Dict::from_pairs(vec![
        ("b".to_string(), Value::Int(1)),
        ("a".to_string(), Value::Int(2)),
        ("b".to_string(), Value::Int(3)),
        ("".to_string(), Value::Int(4)),
    ]);
    assert_eq!(dict.len(), 3);
    assert_eq!(dict.key_at(0), "");
    assert_eq!(dict.key_at(1), "a");
    assert_eq!(dict.key_at(2), "b");
    assert_eq!(dict.get("b"), Some(&Value::Int(3)));
    assert_eq!(Dict::from_pairs(vec![]), Dict::new());
}

#[test]
fn a_hash_map_becomes_a_sorted_dictionary() {
    let mut map = HashMap::new();
    for (index, key) in ["q", "w", "e", "r", "t", "y", "u", "i", "o", "p"].iter().enumerate() {
        map.insert(key.to_string(), Value::Int(index as i64));
    }
    let value = Value::from(map);
    let dict = value.as_dict().unwrap();
    assert_eq!(dict.len(), 10);
    for index in 1..dict.len() {
        assert!(dict.key_at(index - 1).as_bytes() < dict.key_at(index).as_bytes());
    }
    assert_eq!(dict.get("q"), Some(&Value::Int(0)));
    assert_eq!(dict.get("p"), Some(&Value::Int(9)));
    assert_eq!(
        encode(&value),
        b"d1:ei2e1:ii7e1:oi8e1:pi9e1:qi0e1:ri3e1:ti4e1:ui6e1:wi1e1:yi5ee".to_vec()
    );
}
