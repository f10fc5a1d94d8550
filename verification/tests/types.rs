use metainfo::bencode;
use metainfo::{Error, InfoHash};

#[test]
fn hex_is_lower_case_with_the_high_half_first() {
    let mut bytes = [0u8; 20];
    bytes[0] = 0x0a;
    bytes[1] = 0xf0;
    bytes[2] = 0x9b;
    bytes[19] = 0xff;
    assert_eq!(
        InfoHash(bytes).to_hex(),
        "0af09b00000000000000000000000000000000ff"
    );
}

#[test]
fn hex_tells_hashes_apart() {
    let zero = InfoHash([0u8; 20]);
    for i in 0..20 {
        let mut bytes = [0u8; 20];
        bytes[i] = 1;
        assert_ne!(InfoHash(bytes).to_hex(), zero.to_hex());
        assert!(zero < InfoHash(bytes));
    }
}

#[test]
fn every_error_has_its_message() {
    assert_eq!(
        Error::from(bencode::Error).message(),
        "bencode: not canonical bencode"
    );
    assert_eq!(Error::NotADict { what: "info" }.message(), "info is not a dict");
    assert_eq!(Error::MissingKey { key: "pieces" }.message(), "missing key `pieces`");
    assert_eq!(
        Error::WrongType { key: "files", expected: "a list" }.message(),
        "key `files` is not a list"
    );
    assert_eq!(
        Error::BadPieces.message(),
        "`pieces` length is not a multiple of 20"
    );
    assert_eq!(
        Error::BadLayout.message(),
        "info dict must have exactly one of `length` / `files`"
    );
    assert_eq!(
        Error::NotUtf8 { key: "name" }.message(),
        "key `name` is not valid UTF-8"
    );
}

#[test]
fn bencode_errors_become_torrent_errors() {
    assert_eq!(Error::from(bencode::Error), Error::Bencode(bencode::Error));
}
