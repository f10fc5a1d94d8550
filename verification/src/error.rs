//! What can be wrong with a torrent.

use crate::bencode;
use vstd::prelude::*;

verus! {

/// A typed metainfo parse failure.
#[derive(Debug, Clone, PartialEq, Eq)]
pub enum Error {
    /// The outer bytes weren't valid bencode.
    Bencode(bencode::Error),
    /// The top-level value (or info) wasn't a dict.
    NotADict { what: &'static str },
    /// A required key was missing.
    MissingKey { key: &'static str },
    /// A key had the wrong bencode type.
    WrongType { key: &'static str, expected: &'static str },
    /// `pieces` length wasn't a multiple of 20.
    BadPieces,
    /// Neither `length` nor `files` present, or both.
    BadLayout,
    /// A textual field wasn't valid UTF-8.
    NotUtf8 { key: &'static str },
}

impl From<bencode::Error> for Error {
    fn from(e: bencode::Error) -> (r: Self) {
        Error::Bencode(e)
    }
}

impl vstd::std_specs::convert::FromSpecImpl<bencode::Error> for Error {
    open spec fn obeys_from_spec() -> bool {
        true
    }

    open spec fn from_spec(e: bencode::Error) -> Self {
        Error::Bencode(e)
    }
}

impl Error {
    /// The message for this failure, as characters.
    pub open spec fn message_text(self) -> Seq<char> {
        match self {
            Error::Bencode(_) => "bencode: not canonical bencode"@,
            Error::NotADict { what } => what@ + " is not a dict"@,
            Error::MissingKey { key } => "missing key `"@ + key@ + "`"@,
            Error::WrongType { key, expected } => "key `"@ + key@ + "` is not "@ + expected@,
            Error::BadPieces => "`pieces` length is not a multiple of 20"@,
            Error::BadLayout => "info dict must have exactly one of `length` / `files`"@,
            Error::NotUtf8 { key } => "key `"@ + key@ + "` is not valid UTF-8"@,
        }
    }

    /// The message for this failure.
    pub fn message(&self) -> (text: String)
        ensures
            text@ == self.message_text(),
    {
        match self {
            Error::Bencode(_) => "bencode: not canonical bencode".to_owned(),
            Error::NotADict { what } => {
                let mut text = (*what).to_owned();
                text.append(" is not a dict");
                text
            },
            Error::MissingKey { key } => {
                let mut text = "missing key `".to_owned();
                text.append(key);
                text.append("`");
                text
            },
            Error::WrongType { key, expected } => {
                let mut text = "key `".to_owned();
                text.append(key);
                text.append("` is not ");
                text.append(expected);
                text
            },
            Error::BadPieces => "`pieces` length is not a multiple of 20".to_owned(),
            Error::BadLayout => "info dict must have exactly one of `length` / `files`".to_owned(),
            Error::NotUtf8 { key } => {
                let mut text = "key `".to_owned();
                text.append(key);
                text.append("` is not valid UTF-8");
                text
            },
        }
    }
}

/// A message quotes the key, and what was expected, word for word; nothing else in it depends on
/// them.
pub proof fn law_message_quotes_its_subject(e: Error, text: Seq<char>)
    requires
        text == e.message_text(),
    ensures
        e is Bencode ==> text == "bencode: not canonical bencode"@,
        e matches Error::NotADict { what } ==> text.take(what@.len() as int) == what@
            && text.skip(what@.len() as int) == " is not a dict"@,
        e matches Error::MissingKey { key } ==> text.subrange(13, 13int + key@.len()) == key@
            && text.take(13) == "missing key `"@ && text.skip(13int + key@.len()) == "`"@,
        e matches Error::WrongType { key, expected } ==> text.subrange(5, 5int + key@.len()) == key@
            && text.take(5) == "key `"@ && text.subrange(
            5int + key@.len(),
            text.len() - expected@.len(),
        ) == "` is not "@ && text.skip(text.len() - expected@.len()) == expected@,
        e is BadPieces ==> text == "`pieces` length is not a multiple of 20"@,
        e is BadLayout ==> text == "info dict must have exactly one of `length` / `files`"@,
        e matches Error::NotUtf8 { key } ==> text.subrange(5, 5int + key@.len()) == key@ && text.take(
            5,
        ) == "key `"@ && text.skip(5int + key@.len()) == "` is not valid UTF-8"@,
{
    reveal_strlit("missing key `");
    reveal_strlit("key `");
    reveal_strlit("` is not ");
    match e {
        Error::NotADict { what } => {
            assert(text.take(what@.len() as int) =~= what@);
            assert(text.skip(what@.len() as int) =~= " is not a dict"@);
        },
        Error::MissingKey { key } => {
            assert(text.take(13) =~= "missing key `"@);
            assert(text.subrange(13, 13int + key@.len()) =~= key@);
            assert(text.skip(13int + key@.len()) =~= "`"@);
        },
        Error::WrongType { key, expected } => {
            assert(text.take(5) =~= "key `"@);
            assert(text.subrange(5, 5int + key@.len()) =~= key@);
            assert(text.subrange(5int + key@.len(), text.len() - expected@.len()) =~= "` is not "@);
            assert(text.skip(text.len() - expected@.len()) =~= expected@);
        },
        Error::NotUtf8 { key } => {
            assert(text.take(5) =~= "key `"@);
            assert(text.subrange(5, 5int + key@.len()) =~= key@);
            assert(text.skip(5int + key@.len()) =~= "` is not valid UTF-8"@);
        },
        _ => {},
    }
}

} // verus!
