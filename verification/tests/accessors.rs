use bende::order::{compare, Place};
use bende::render::push_quoted;
use bende::{Dict, Error, ErrorKind, Value};

fn sample_dict() -> Dict {
    let mut map = Dict::new();
    map.insert("foo".to_string(), Value::Int(1995));
    map.insert("bar".to_string(), Value::Text(b"faz".to_vec()));
    map
}

#[test]
fn as_i64_narrows_to_an_integer() {
    assert_eq!(Value::Int(50).as_i64(), Some(50));
    assert_eq!(Value::Text(b"50".to_vec()).as_i64(), None);
    assert_eq!(Value::List(vec![]).as_i64(), None);
    assert_eq!(Value::Dict(Dict::new()).as_i64(), None);
}

#[test]
fn as_bytes_narrows_to_text() {
    let val = Value::Text(b"foo".to_vec());
    assert_eq!(val.as_bytes(), Some(b"foo".as_slice()));
    assert_eq!(Value::Int(1).as_bytes(), None);
}

#[test]
fn as_bytes_mut_changes_the_text() {
    let mut val = Value::Text(b"foo".to_vec());
    if let Some(bytes) = val.as_bytes_mut() {
        bytes[0] = b'b';
        assert_eq!(bytes, b"boo");
    }
    assert_eq!(val, Value::Text(b"boo".to_vec()));
    assert!(Value::Int(1).as_bytes_mut().is_none());
}

#[test]
fn as_str_reads_utf8_text() {
    let val = Value::Text(b"foo".to_vec());
    assert_eq!(val.as_str(), Ok(Some("foo")));
    assert_eq!(Value::Text("\u{e9}".as_bytes().to_vec()).as_str(), Ok(Some("\u{e9}")));
    assert_eq!(Value::Int(1).as_str(), Ok(None));
    assert!(Value::Text(vec![0xff]).as_str().is_err());
}

#[test]
fn as_str_mut_changes_utf8_text() {
    let mut val = Value::Text(b"foo".to_vec());
    if let Ok(Some(s)) = val.as_str_mut() {
        s.make_ascii_uppercase();
    }
    assert_eq!(val, Value::Text(b"FOO".to_vec()));
    assert_eq!(Value::Int(1).as_str_mut(), Ok(None));
    let mut broken = Value::Text(vec![0xc3, 0x28]);
    assert!(broken.as_str_mut().is_err());
    assert_eq!(broken, Value::Text(vec![0xc3, 0x28]));
}

#[test]
fn as_list_narrows_to_a_list() {
    let val = Value::List(vec![Value::Int(50), Value::Text(b"foo".to_vec())]);
    let items = val.as_list().unwrap();
    assert_eq!(items.len(), 2);
    assert_eq!(items[0], Value::Int(50));
    assert_eq!(items[1], Value::Text(b"foo".to_vec()));
    assert_eq!(Value::Int(1).as_list(), None);
}

#[test]
fn as_list_mut_changes_the_list() {
    let mut val = Value::List(vec![Value::Int(50), Value::Int(50)]);
    for elem in val.as_list_mut().unwrap().iter_mut() {
        *elem = Value::Text(b"foo".to_vec());
    }
    val.as_list_mut().unwrap().push(Value::Int(1));
    assert_eq!(
        val,
        Value::List(vec![
            Value::Text(b"foo".to_vec()),
            Value::Text(b"foo".to_vec()),
            Value::Int(1)
        ])
    );
    assert!(Value::Int(1).as_list_mut().is_none());
}

#[test]
fn as_dict_narrows_to_a_dictionary() {
    let val = Value::Dict(sample_dict());
    let dict = val.as_dict().unwrap();
    assert_eq!(dict.len(), 2);
    assert_eq!(dict.get("foo"), Some(&Value::Int(1995)));
    assert_eq!(Value::Int(1).as_dict(), None);
}

#[test]
fn as_dict_mut_changes_the_dictionary() {
    let mut val = Value::Dict(sample_dict());
    val.as_dict_mut().unwrap().insert("abc".to_string(), Value::Int(0));
    let dict = val.as_dict().unwrap();
    assert_eq!(dict.len(), 3);
    assert_eq!(dict.key_at(0), "abc");
    assert_eq!(dict.key_at(1), "bar");
    assert_eq!(dict.key_at(2), "foo");
    assert!(Value::Int(1).as_dict_mut().is_none());
}

#[test]
fn values_from_integers() {
    assert_eq!(Value::from(7i64), Value::Int(7));
    assert_eq!(Value::from(7u8), Value::Int(7));
    assert_eq!(Value::from(7u16), Value::Int(7));
    assert_eq!(Value::from(7u32), Value::Int(7));
    assert_eq!(Value::from(7u64), Value::Int(7));
    assert_eq!(Value::from(7usize), Value::Int(7));
    assert_eq!(Value::from(-7i8), Value::Int(-7));
    assert_eq!(Value::from(-7i16), Value::Int(-7));
    assert_eq!(Value::from(-7i32), Value::Int(-7));
    assert_eq!(Value::from(-7isize), Value::Int(-7));
}

#[test]
fn values_from_bytes_and_strings() {
    assert_eq!(Value::from(b"foo".as_slice()), Value::Text(b"foo".to_vec()));
    assert_eq!(Value::from(b"foo".to_vec()), Value::Text(b"foo".to_vec()));
    assert_eq!(Value::from("f\u{e9}"), Value::Text(vec![b'f', 0xc3, 0xa9]));
    assert_eq!(Value::from("foo".to_string()), Value::Text(b"foo".to_vec()));
}

#[test]
fn values_from_lists_and_dictionaries() {
    let items = vec![Value::Int(1), Value::Text(b"x".to_vec())];
    assert_eq!(Value::from(items.as_slice()), Value::List(items.clone()));
    assert_eq!(Value::from(items.clone()), Value::List(items));
    assert_eq!(Value::from(sample_dict()), Value::Dict(sample_dict()));
}

#[test]
fn clones_are_equal() {
    let val = Value::List(vec![Value::Dict(sample_dict()), Value::Int(3)]);
    assert_eq!(val.clone(), val);
    assert_eq!(sample_dict().clone(), sample_dict());
}

#[test]
fn values_as_text() {
    assert_eq!(Value::Int(0).to_string(), "0");
    assert_eq!(Value::Int(-1995).to_string(), "-1995");
    assert_eq!(Value::Int(i64::MIN).to_string(), "-9223372036854775808");
    assert_eq!(Value::Text(b"foo".to_vec()).to_string(), "\"foo\"");
    assert_eq!(Value::Text(vec![b'a', 0xff, b'b']).to_string(), "\"a\u{fffd}b\"");
    assert_eq!(Value::List(vec![]).to_string(), "[]");
    assert_eq!(
        Value::List(vec![Value::Int(1), Value::Text(b"x".to_vec()), Value::List(vec![])])
            .to_string(),
        "[1, \"x\", []]"
    );
    assert_eq!(Value::Dict(Dict::new()).to_string(), "{}");
    assert_eq!(Value::Dict(sample_dict()).to_string(), "{ bar: \"faz\", foo: 1995 }");
    let mut one = Dict::new();
    one.insert("k".to_string(), Value::Dict(Dict::new()));
    assert_eq!(Value::Dict(one).to_string(), "{ k: {} }");
}

#[test]
fn byte_strings_in_order() {
    assert_eq!(compare(b"", b""), Place::Same);
    assert_eq!(compare(b"", b"a"), Place::Before);
    assert_eq!(compare(b"a", b""), Place::After);
    assert_eq!(compare(b"ab", b"b"), Place::Before);
    assert_eq!(compare(b"abc", b"abd"), Place::Before);
    assert_eq!(compare(b"abc", b"ab"), Place::After);
    assert_eq!(compare(b"abc", b"abc"), Place::Same);
    assert_eq!(compare(&[0x7f], &[0x80]), Place::Before);
    assert_eq!(compare(&[0xff], &[0x00, 0xff]), Place::After);
}

#[test]
fn text_between_quotes() {
    let mut out = String::from("x");
    push_quoted("a b", &mut out);
    assert_eq!(out, "x\"a b\"");
    push_quoted("", &mut out);
    assert_eq!(out, "x\"a b\"\"\"");
}

#[test]
fn an_error_has_its_kind_and_offset() {
    let error = Error::new(ErrorKind::TypeMismatch, 7);
    assert_eq!(error.kind, ErrorKind::TypeMismatch);
    assert_eq!(error.offset, 7);
    assert_eq!(error, Error { kind: ErrorKind::TypeMismatch, offset: 7 });
    assert_ne!(error, Error::new(ErrorKind::TypeMismatch, 8));
}
