use metainfo::bencode::Bencode;
use metainfo::{Error, Layout, Metainfo};
use sha1::{Digest, Sha1};
use std::collections::BTreeMap;

type Entries = BTreeMap<Vec<u8>, Bencode>;

fn dict(entries: Entries) -> Bencode {
    Bencode::Dict(entries.into_iter().collect())
}

fn text(s: &str) -> Bencode {
    Bencode::Bytes(s.as_bytes().to_vec())
}

fn set(entries: &mut Entries, key: &str, value: Bencode) {
    entries.insert(key.as_bytes().to_vec(), value);
}

fn single_file_info() -> Entries {
    let mut info: Entries = BTreeMap::new();
    info.insert(b"name".to_vec(), Bencode::Bytes(b"hello.txt".to_vec()));
    info.insert(b"piece length".to_vec(), Bencode::Int(16384));
    info.insert(b"length".to_vec(), Bencode::Int(1234));
    // one 20-byte piece hash
    info.insert(b"pieces".to_vec(), Bencode::Bytes(vec![0xab; 20]));
    info
}

/// A minimal single-file torrent's bytes.
fn single_file_torrent() -> Vec<u8> {
    let mut root: Entries = BTreeMap::new();
    root.insert(
        b"announce".to_vec(),
        Bencode::Bytes(b"http://t.example/announce".to_vec()),
    );
    root.insert(b"info".to_vec(), dict(single_file_info()));
    dict(root).to_bytes()
}

/// Parses a torrent with nothing but this info dict.
fn with_info(info: Entries) -> Result<Metainfo, Error> {
    let mut root: Entries = BTreeMap::new();
    set(&mut root, "info", dict(info));
    Metainfo::from_bytes(&dict(root).to_bytes())
}

/// Parses a good torrent with one more field at the top level.
fn with_root_field(key: &str, value: Bencode) -> Result<Metainfo, Error> {
    let mut root: Entries = BTreeMap::new();
    set(&mut root, "info", dict(single_file_info()));
    set(&mut root, key, value);
    Metainfo::from_bytes(&dict(root).to_bytes())
}

#[test]
fn parses_a_single_file_torrent() {
    let m = Metainfo::from_bytes(&single_file_torrent()).unwrap();
    assert_eq!(m.announce.as_deref(), Some("http://t.example/announce"));
    assert_eq!(m.info.name, "hello.txt");
    assert_eq!(m.info.piece_length, 16384);
    assert_eq!(m.info.piece_count(), 1);
    assert_eq!(m.info.total_length(), 1234);
    assert!(matches!(m.info.layout, Layout::SingleFile { length: 1234 }));
    assert!(!m.info.private);
}

#[test]
fn info_hash_is_sha1_of_the_canonical_info_dict() {
    let m = Metainfo::from_bytes(&single_file_torrent()).unwrap();
    // Recompute independently from the re-encoded info dict.
    let mut info: Entries = BTreeMap::new();
    info.insert(b"name".to_vec(), Bencode::Bytes(b"hello.txt".to_vec()));
    info.insert(b"piece length".to_vec(), Bencode::Int(16384));
    info.insert(b"length".to_vec(), Bencode::Int(1234));
    info.insert(b"pieces".to_vec(), Bencode::Bytes(vec![0xab; 20]));
    let expected: [u8; 20] = Sha1::digest(dict(info).to_bytes()).into();
    assert_eq!(m.info_hash.0, expected);
    // hex is 40 chars, lower-case
    assert_eq!(m.info_hash.to_hex().len(), 40);
    assert!(m.info_hash.to_hex().bytes().all(|b| b.is_ascii_hexdigit()));
}

#[test]
fn parses_a_multi_file_torrent() {
    let mut f1: Entries = BTreeMap::new();
    f1.insert(b"length".to_vec(), Bencode::Int(100));
    f1.insert(
        b"path".to_vec(),
        Bencode::List(vec![
            Bencode::Bytes(b"a".to_vec()),
            Bencode::Bytes(b"x.txt".to_vec()),
        ]),
    );
    let mut info: Entries = BTreeMap::new();
    info.insert(b"name".to_vec(), Bencode::Bytes(b"dir".to_vec()));
    info.insert(b"piece length".to_vec(), Bencode::Int(16384));
    info.insert(b"pieces".to_vec(), Bencode::Bytes(vec![0u8; 40]));
    info.insert(b"files".to_vec(), Bencode::List(vec![dict(f1)]));
    let mut root: Entries = BTreeMap::new();
    root.insert(b"info".to_vec(), dict(info));
    let m = Metainfo::from_bytes(&dict(root).to_bytes()).unwrap();
    assert_eq!(m.info.piece_count(), 2);
    assert_eq!(m.info.total_length(), 100);
    match &m.info.layout {
        Layout::MultiFile { files } => {
            assert_eq!(files[0].path, vec!["a".to_string(), "x.txt".to_string()]);
        }
        Layout::SingleFile { .. } => panic!("expected multi-file"),
    }
}

#[test]
fn rejects_both_length_and_files() {
    let mut info: Entries = BTreeMap::new();
    info.insert(b"name".to_vec(), Bencode::Bytes(b"x".to_vec()));
    info.insert(b"piece length".to_vec(), Bencode::Int(16384));
    info.insert(b"pieces".to_vec(), Bencode::Bytes(vec![0u8; 20]));
    info.insert(b"length".to_vec(), Bencode::Int(1));
    info.insert(b"files".to_vec(), Bencode::List(vec![]));
    let mut root: Entries = BTreeMap::new();
    root.insert(b"info".to_vec(), dict(info));
    assert_eq!(
        Metainfo::from_bytes(&dict(root).to_bytes()),
        Err(Error::BadLayout)
    );
}

#[test]
fn info_hash_has_the_known_value() {
    let m = Metainfo::from_bytes(&single_file_torrent()).unwrap();
    assert_eq!(m.info_hash.to_hex(), "a2ec852831911946aa5d5bddf04febf9942144c9");
}

#[test]
fn info_hash_is_sha1_of_the_bytes_behind_the_key_info() {
    let file = single_file_torrent();
    let key = b"4:info";
    let start = file
        .windows(key.len())
        .position(|w| w == key)
        .unwrap()
        + key.len();
    // `info` is the last key, so that its value ends one byte ahead of the end.
    let expected: [u8; 20] = Sha1::digest(&file[start..file.len() - 1]).into();
    assert_eq!(Metainfo::from_bytes(&file).unwrap().info_hash.0, expected);
}

#[test]
fn fields_around_the_info_dict_do_not_change_the_info_hash() {
    let plain = Metainfo::from_bytes(&single_file_torrent()).unwrap();
    let other = with_root_field("comment", text("another copy")).unwrap();
    assert_eq!(plain.info_hash, other.info_hash);
    assert_eq!(plain.info, other.info);

    let mut info = single_file_info();
    set(&mut info, "source", text("elsewhere"));
    assert_ne!(with_info(info).unwrap().info_hash, plain.info_hash);
}

#[test]
fn reads_every_field() {
    let mut root: Entries = BTreeMap::new();
    set(&mut root, "info", dict(single_file_info()));
    set(&mut root, "announce", text("http://a.example"));
    set(
        &mut root,
        "announce-list",
        Bencode::List(vec![
            Bencode::List(vec![text("http://a.example"), text("http://b.example")]),
            Bencode::List(vec![]),
            Bencode::List(vec![text("udp://c.example")]),
        ]),
    );
    set(&mut root, "creation date", Bencode::Int(-5));
    set(&mut root, "comment", text("caf\u{e9} \u{1f600}"));
    set(&mut root, "created by", text(""));
    let m = Metainfo::from_bytes(&dict(root).to_bytes()).unwrap();
    assert_eq!(m.announce.as_deref(), Some("http://a.example"));
    assert_eq!(
        m.announce_list,
        vec![
            vec!["http://a.example".to_string(), "http://b.example".to_string()],
            vec![],
            vec!["udp://c.example".to_string()],
        ]
    );
    assert_eq!(m.creation_date, Some(-5));
    assert_eq!(m.comment.as_deref(), Some("caf\u{e9} \u{1f600}"));
    assert_eq!(m.created_by.as_deref(), Some(""));
}

#[test]
fn absent_fields_are_absent() {
    let m = with_info(single_file_info()).unwrap();
    assert_eq!(m.announce, None);
    assert!(m.announce_list.is_empty());
    assert_eq!(m.creation_date, None);
    assert_eq!(m.comment, None);
    assert_eq!(m.created_by, None);
}

#[test]
fn rejects_what_is_not_canonical_bencode() {
    let not_bencode = Err(Error::Bencode(metainfo::bencode::Error));
    assert_eq!(Metainfo::from_bytes(b""), not_bencode);
    assert_eq!(Metainfo::from_bytes(b"hello"), not_bencode);
    let mut trailing = single_file_torrent();
    trailing.push(b'e');
    assert_eq!(Metainfo::from_bytes(&trailing), not_bencode);
    // Keys out of order.
    assert_eq!(Metainfo::from_bytes(b"d4:infode1:a1:be"), not_bencode);
}

#[test]
fn rejects_what_is_no_dict() {
    assert_eq!(
        Metainfo::from_bytes(b"i1e"),
        Err(Error::NotADict { what: "torrent" })
    );
    assert_eq!(
        Metainfo::from_bytes(b"d4:infoi1ee"),
        Err(Error::NotADict { what: "info" })
    );
}

#[test]
fn rejects_missing_keys() {
    assert_eq!(
        Metainfo::from_bytes(b"de"),
        Err(Error::MissingKey { key: "info" })
    );
    for key in ["name", "piece length", "pieces"] {
        let mut info = single_file_info();
        info.remove(key.as_bytes());
        assert_eq!(with_info(info), Err(Error::MissingKey { key }));
    }
}

#[test]
fn a_value_of_another_type_is_a_wrong_type() {
    for (key, value, expected) in [
        ("name", Bencode::Int(7), "a byte string"),
        ("piece length", text("1"), "an integer"),
        ("pieces", Bencode::List(vec![]), "a byte string"),
        ("length", text("1234"), "an integer"),
    ] {
        let mut info = single_file_info();
        set(&mut info, key, value);
        assert_eq!(with_info(info), Err(Error::WrongType { key, expected }));
    }
}

#[test]
fn rejects_negative_numbers() {
    for key in ["piece length", "length"] {
        let mut info = single_file_info();
        set(&mut info, key, Bencode::Int(-1));
        assert_eq!(
            with_info(info),
            Err(Error::WrongType { key, expected: "a non-negative integer" })
        );
    }
}

#[test]
fn rejects_pieces_that_are_no_multiple_of_20() {
    let mut info = single_file_info();
    set(&mut info, "pieces", Bencode::Bytes(vec![0; 21]));
    assert_eq!(with_info(info), Err(Error::BadPieces));
    let mut info = single_file_info();
    set(&mut info, "pieces", Bencode::Bytes(vec![]));
    assert_eq!(with_info(info).unwrap().info.piece_count(), 0);
}

#[test]
fn pieces_keep_every_byte() {
    let bytes: Vec<u8> = (0u8..60).collect();
    let mut info = single_file_info();
    set(&mut info, "pieces", Bencode::Bytes(bytes.clone()));
    let pieces = with_info(info).unwrap().info.pieces;
    assert_eq!(pieces.len(), 3);
    assert_eq!(pieces.concat(), bytes);
}

#[test]
fn rejects_neither_length_nor_files() {
    let mut info = single_file_info();
    info.remove(b"length".as_slice());
    assert_eq!(with_info(info), Err(Error::BadLayout));
}

#[test]
fn length_of_any_type_beside_files_is_both() {
    let mut info = single_file_info();
    set(&mut info, "length", text("1234"));
    set(&mut info, "files", Bencode::List(vec![]));
    assert_eq!(with_info(info), Err(Error::BadLayout));
}

fn files_info(files: Bencode) -> Entries {
    let mut info = single_file_info();
    info.remove(b"length".as_slice());
    set(&mut info, "files", files);
    info
}

fn file(length: i64, path: Vec<Bencode>) -> Bencode {
    let mut entry: Entries = BTreeMap::new();
    set(&mut entry, "length", Bencode::Int(length));
    set(&mut entry, "path", Bencode::List(path));
    dict(entry)
}

#[test]
fn total_length_adds_up_the_files() {
    let files = Bencode::List(vec![
        file(100, vec![text("a")]),
        file(0, vec![]),
        file(i64::MAX, vec![text("d"), text("b")]),
    ]);
    let info = with_info(files_info(files)).unwrap().info;
    assert_eq!(info.total_length(), 100 + i64::MAX as u64);
    match info.layout {
        Layout::MultiFile { files } => {
            assert_eq!(files.len(), 3);
            assert_eq!(files[0].length, 100);
            assert!(files[1].path.is_empty());
        }
        Layout::SingleFile { .. } => panic!("expected multi-file"),
    }
    let none = with_info(files_info(Bencode::List(vec![]))).unwrap().info;
    assert_eq!(none.total_length(), 0);
}

#[test]
fn rejects_bad_files() {
    assert_eq!(
        with_info(files_info(Bencode::Int(1))),
        Err(Error::WrongType { key: "files", expected: "a list" })
    );
    assert_eq!(
        with_info(files_info(Bencode::List(vec![Bencode::Int(1)]))),
        Err(Error::MissingKey { key: "files[].length" })
    );
    assert_eq!(
        with_info(files_info(Bencode::List(vec![file(-1, vec![])]))),
        Err(Error::WrongType { key: "files[].length", expected: "a non-negative integer" })
    );
    let mut entry: Entries = BTreeMap::new();
    set(&mut entry, "length", text("1"));
    set(&mut entry, "path", Bencode::List(vec![text("a")]));
    assert_eq!(
        with_info(files_info(Bencode::List(vec![dict(entry)]))),
        Err(Error::WrongType { key: "files[].length", expected: "an integer" })
    );
    let mut entry: Entries = BTreeMap::new();
    set(&mut entry, "length", Bencode::Int(1));
    set(&mut entry, "path", text("a"));
    assert_eq!(
        with_info(files_info(Bencode::List(vec![dict(entry)]))),
        Err(Error::WrongType { key: "files[].path", expected: "a list" })
    );
    assert_eq!(
        with_info(files_info(Bencode::List(vec![file(1, vec![Bencode::Int(1)])]))),
        Err(Error::WrongType { key: "files[].path", expected: "a byte string" })
    );
    let mut entry: Entries = BTreeMap::new();
    set(&mut entry, "length", Bencode::Int(1));
    assert_eq!(
        with_info(files_info(Bencode::List(vec![dict(entry)]))),
        Err(Error::MissingKey { key: "files[].path" })
    );
    assert_eq!(
        with_info(files_info(Bencode::List(vec![file(1, vec![Bencode::Bytes(vec![0xff])])]))),
        Err(Error::NotUtf8 { key: "files[].path" })
    );
}

#[test]
fn the_first_bad_file_is_reported() {
    let files = Bencode::List(vec![
        file(1, vec![text("good")]),
        file(-1, vec![]),
        Bencode::Int(1),
    ]);
    assert_eq!(
        with_info(files_info(files)),
        Err(Error::WrongType { key: "files[].length", expected: "a non-negative integer" })
    );
}

#[test]
fn rejects_text_that_is_not_utf8() {
    let mut info = single_file_info();
    set(&mut info, "name", Bencode::Bytes(vec![0x66, 0xc3]));
    assert_eq!(with_info(info), Err(Error::NotUtf8 { key: "name" }));
    for key in ["announce", "comment", "created by"] {
        assert_eq!(
            with_root_field(key, Bencode::Bytes(vec![0xff, 0xfe])),
            Err(Error::NotUtf8 { key })
        );
        assert_eq!(
            with_root_field(key, Bencode::Int(1)),
            Err(Error::WrongType { key, expected: "a byte string" })
        );
    }
}

#[test]
fn announce_list_is_a_list_of_lists_of_text() {
    assert!(with_root_field("announce-list", Bencode::Int(1))
        .unwrap()
        .announce_list
        .is_empty());
    assert_eq!(
        with_root_field("announce-list", Bencode::List(vec![text("http://a.example")])),
        Err(Error::WrongType { key: "announce-list", expected: "a list of lists" })
    );
    assert_eq!(
        with_root_field(
            "announce-list",
            Bencode::List(vec![Bencode::List(vec![Bencode::Int(1)])])
        ),
        Err(Error::WrongType { key: "announce-list", expected: "a byte string" })
    );
    assert_eq!(
        with_root_field(
            "announce-list",
            Bencode::List(vec![Bencode::List(vec![Bencode::Bytes(vec![0xff])])])
        ),
        Err(Error::NotUtf8 { key: "announce-list" })
    );
}

#[test]
fn creation_date_of_another_type_is_absent() {
    let m = with_root_field("creation date", text("yesterday")).unwrap();
    assert_eq!(m.creation_date, None);
}

#[test]
fn only_the_integer_one_makes_a_torrent_private() {
    for (value, expected) in [
        (Bencode::Int(1), true),
        (Bencode::Int(0), false),
        (Bencode::Int(2), false),
        (text("1"), false),
    ] {
        let mut info = single_file_info();
        set(&mut info, "private", value);
        assert_eq!(with_info(info).unwrap().info.private, expected);
    }
}

#[test]
fn errors_come_in_a_fixed_order() {
    // Everything is wrong; what is checked first is reported.
    let mut info: Entries = BTreeMap::new();
    set(&mut info, "pieces", Bencode::Bytes(vec![0; 3]));
    set(&mut info, "piece length", Bencode::Int(-1));
    let mut root: Entries = BTreeMap::new();
    set(&mut root, "announce", Bencode::Int(1));
    set(&mut root, "info", dict(info));
    assert_eq!(
        Metainfo::from_bytes(&dict(root).to_bytes()),
        Err(Error::MissingKey { key: "name" })
    );

    let mut info = single_file_info();
    set(&mut info, "pieces", Bencode::Bytes(vec![0; 3]));
    set(&mut info, "length", Bencode::Int(-1));
    assert_eq!(with_info(info), Err(Error::BadPieces));
}

#[test]
fn parses_a_bare_info_dict() {
    let input = b"d6:lengthi5e4:name1:x12:piece lengthi16384e6:pieces0:e";
    let m = Metainfo::from_bytes(input).unwrap();
    assert_eq!(m.info.name, "x");
    assert_eq!(m.info.piece_length, 16384);
    assert!(m.info.pieces.is_empty());
    assert_eq!(m.info.layout, Layout::SingleFile { length: 5 });
    assert!(!m.info.private);
    let expected: [u8; 20] = Sha1::digest(input).into();
    assert_eq!(m.info_hash.0, expected);
    assert_eq!(m.announce, None);
    assert!(m.announce_list.is_empty());
    assert_eq!(m.creation_date, None);
    assert_eq!(m.comment, None);
    assert_eq!(m.created_by, None);
}

#[test]
fn a_bare_info_dict_has_the_identity_of_its_torrent() {
    let whole = Metainfo::from_bytes(&single_file_torrent()).unwrap();
    let bare = Metainfo::from_bytes(&dict(single_file_info()).to_bytes()).unwrap();
    assert_eq!(bare.info, whole.info);
    assert_eq!(bare.info_hash, whole.info_hash);
}

#[test]
fn fields_of_a_bare_info_dict_are_not_those_of_a_torrent() {
    let mut info = single_file_info();
    set(&mut info, "comment", Bencode::Int(1));
    set(&mut info, "announce", text("http://a.example"));
    let m = Metainfo::from_bytes(&dict(info).to_bytes()).unwrap();
    assert_eq!(m.comment, None);
    assert_eq!(m.announce, None);
}

#[test]
fn a_bad_bare_info_dict_lacks_the_key_info() {
    let mut info = single_file_info();
    set(&mut info, "pieces", Bencode::Bytes(vec![0; 3]));
    assert_eq!(
        Metainfo::from_bytes(&dict(info).to_bytes()),
        Err(Error::MissingKey { key: "info" })
    );
}

#[test]
fn the_readers_report_wrong_types() {
    let info = metainfo::bencode::parse(b"d6:lengthi1e4:name1:x12:piece length1:16:pieces0:e")
        .unwrap();
    assert!(matches!(
        metainfo::info::parse_info(&info),
        Err(Error::WrongType { key: "piece length", .. })
    ));
    let files = metainfo::bencode::parse(b"ld6:length1:14:pathl1:aeee").unwrap();
    assert!(matches!(
        metainfo::info::parse_files(&files),
        Err(Error::WrongType { key: "files[].length", .. })
    ));
    let named = metainfo::bencode::parse(b"d4:namei7ee").unwrap();
    assert!(matches!(
        metainfo::fields::req_str(&named, "name"),
        Err(Error::WrongType { key: "name", .. })
    ));
}
