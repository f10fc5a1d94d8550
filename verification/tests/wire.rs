use metainfo::bencode::{parse, Bencode, Error};
use std::collections::BTreeMap;

fn text(s: &str) -> Bencode {
    Bencode::Bytes(s.as_bytes().to_vec())
}

fn entry(key: &str, value: Bencode) -> (Vec<u8>, Bencode) {
    (key.as_bytes().to_vec(), value)
}

/// The same value for the `bencode` crate.
fn counterpart(value: &Bencode) -> bencode::Bencode {
    match value {
        Bencode::Int(n) => bencode::Bencode::Number(*n),
        Bencode::Bytes(b) => bencode::Bencode::ByteString(b.clone()),
        Bencode::List(items) => bencode::Bencode::List(items.iter().map(counterpart).collect()),
        Bencode::Dict(entries) => bencode::Bencode::Dict(
            entries
                .iter()
                .map(|(k, v)| (bencode::util::ByteString::from_slice(k), counterpart(v)))
                .collect::<BTreeMap<_, _>>(),
        ),
    }
}

fn samples() -> Vec<Bencode> {
    vec![
        Bencode::Int(0),
        Bencode::Int(-1),
        Bencode::Int(10),
        Bencode::Int(i64::MAX),
        Bencode::Int(i64::MIN),
        text(""),
        text("0123456789"),
        Bencode::Bytes(vec![0xff, 0x00, 0x65]),
        Bencode::List(vec![]),
        Bencode::List(vec![Bencode::Int(1), Bencode::List(vec![text("e")])]),
        Bencode::Dict(vec![]),
        Bencode::Dict(vec![
            entry("", Bencode::Int(1)),
            entry("a", Bencode::List(vec![])),
            entry("aa", Bencode::Dict(vec![entry("x", text("y"))])),
            entry("b", text("d")),
        ]),
    ]
}

#[test]
fn writes_the_four_kinds() {
    assert_eq!(Bencode::Int(-42).to_bytes(), b"i-42e");
    assert_eq!(Bencode::Int(i64::MIN).to_bytes(), b"i-9223372036854775808e");
    assert_eq!(text("spam").to_bytes(), b"4:spam");
    assert_eq!(
        Bencode::List(vec![text("a"), Bencode::Int(0)]).to_bytes(),
        b"l1:ai0ee"
    );
    assert_eq!(
        Bencode::Dict(vec![entry("cow", text("moo")), entry("n", Bencode::List(vec![]))]).to_bytes(),
        b"d3:cow3:moo1:nlee"
    );
}

#[test]
fn reads_back_what_was_written() {
    for value in samples() {
        assert_eq!(parse(&value.to_bytes()), Ok(value));
    }
}

#[test]
fn writes_back_what_was_read() {
    for bytes in [
        b"d1:ali1ei-2ee1:bd0:0:ee".as_slice(),
        b"i9223372036854775807e",
        b"l0:1:e11:e2345678901e",
    ] {
        assert_eq!(parse(bytes).unwrap().to_bytes(), bytes);
    }
}

#[test]
fn different_values_have_different_encodings() {
    let all = samples();
    for (i, a) in all.iter().enumerate() {
        for (j, b) in all.iter().enumerate() {
            assert_eq!(a.to_bytes() == b.to_bytes(), i == j);
        }
    }
}

#[test]
fn no_encoding_continues_another() {
    let all = samples();
    for (i, a) in all.iter().enumerate() {
        for (j, b) in all.iter().enumerate() {
            assert_eq!(b.to_bytes().starts_with(&a.to_bytes()), i == j);
        }
    }
}

#[test]
fn rejects_what_is_not_canonical() {
    for bytes in [
        b"".as_slice(),
        b"i",
        b"ie",
        b"i1",
        b"i-e",
        b"i-0e",
        b"i03e",
        b"i-03e",
        b"i+1e",
        b"i1.5e",
        b"i9223372036854775808e",
        b"i-9223372036854775809e",
        b"i99999999999999999999999e",
        b"4:abc",
        b"03:abc",
        b"3abc",
        b":abc",
        b"-1:a",
        b"18446744073709551616:a",
        b"9223372036854775807:a",
        b"l",
        b"li1e",
        b"lee",
        b"d",
        b"d1:a",
        b"d1:ae",
        b"di1ei2ee",
        b"d1:bi1e1:ai2ee",
        b"d1:ai1e1:ai2ee",
        b"d2:aai1e1:ai2ee",
        b"ld1:bi1e1:ai2eee",
        b"e",
        b"i1ei2e",
        b"x",
    ] {
        assert_eq!(parse(bytes), Err(Error), "{:?}", bytes);
    }
}

#[test]
fn reads_nested_lists() {
    let mut bytes = vec![b'l'; 500];
    bytes.extend(vec![b'e'; 500]);
    assert_eq!(parse(&bytes).unwrap().to_bytes(), bytes);
    bytes.pop();
    assert_eq!(parse(&bytes), Err(Error));
}

#[test]
fn answers_questions_about_values() {
    let value = Bencode::Dict(vec![entry("a", Bencode::Int(1)), entry("b", text("two"))]);
    assert_eq!(value.get("a").and_then(Bencode::as_int), Some(1));
    assert_eq!(value.get("b").and_then(Bencode::as_str), Some("two"));
    assert_eq!(value.get("b").and_then(Bencode::as_bytes), Some(b"two".as_slice()));
    assert_eq!(value.get("c"), None);
    assert_eq!(value.as_dict().map(Vec::len), Some(2));
    assert_eq!(value.as_list(), None);
    assert_eq!(value.as_int(), None);
    assert_eq!(value.as_bytes(), None);
    assert_eq!(value.as_str(), None);
    assert_eq!(text("x").get("x"), None);
    assert_eq!(text("x").as_dict(), None);
    assert_eq!(Bencode::Bytes(vec![0xff]).as_str(), None);
    assert_eq!(Bencode::List(vec![text("x")]).as_list().map(Vec::len), Some(1));
}

#[test]
fn every_entry_of_a_dictionary_is_found() {
    let entries = vec![
        entry("", Bencode::Int(0)),
        entry("a", Bencode::Int(1)),
        entry("aa", Bencode::Int(2)),
        entry("b", Bencode::Int(3)),
    ];
    let value = parse(&Bencode::Dict(entries).to_bytes()).unwrap();
    for (i, key) in ["", "a", "aa", "b"].iter().enumerate() {
        assert_eq!(value.get(key), Some(&Bencode::Int(i as i64)));
    }
}

#[test]
fn a_field_stands_behind_its_key() {
    let value = Bencode::Dict(vec![
        entry("a", Bencode::List(vec![Bencode::Int(7)])),
        entry("b", Bencode::Int(1)),
    ]);
    let bytes = value.to_bytes();
    let mut part = text("a").to_bytes();
    part.extend(value.get("a").unwrap().to_bytes());
    assert!(bytes.windows(part.len()).any(|w| w == part.as_slice()));
}

#[test]
fn agrees_with_the_bencode_crate_on_canonical_input() {
    for value in samples() {
        let theirs = counterpart(&value);
        let bytes = value.to_bytes();
        assert_eq!(theirs.to_bytes().unwrap(), bytes);
        assert_eq!(bencode::from_buffer(&bytes).unwrap(), theirs);
    }
}

#[test]
fn is_stricter_than_the_bencode_crate() {
    for bytes in [
        b"d1:bi1e1:ai2ee".as_slice(),
        b"d1:ai1e1:ai2ee",
        b"i-0e",
        b"03:abc",
    ] {
        assert!(bencode::from_buffer(bytes).is_ok());
        assert_eq!(parse(bytes), Err(Error));
    }
}
