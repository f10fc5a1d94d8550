//! What is promised of a parsed torrent, said of the fields of what is returned and of the
//! values that stand in the file.

use crate::bencode;
use crate::bencode::grammar::{decoded, encoding, law_encoding_of_decoded, Value};
use crate::error::Error;
use crate::fields::{
    gathered, lemma_gathered_error, optional_text, required_text, text_or_error, text_results,
    texts_model, viewed,
};
use crate::hash::{sha1_digest, InfoHash};
use crate::info::{
    cut_pieces, file_of, file_results, files_model, files_of, info_of, path_of,
    pieces_model, sum_lengths, FileEntry, FileModel, InfoDict, InfoModel, Layout,
};
use crate::torrent::{
    announce_list_of, bare_metainfo, metainfo_with, tier_of, tier_results, tiers_model, torrent_of,
    Metainfo, MetainfoModel,
};
use vstd::prelude::*;
use vstd::utf8::{encode_utf8, valid_utf8};

verus! {

/// Taking a result by its view keeps whether it is a value, and which error it is.
pub proof fn law_viewed_keeps_the_outcome<T: View>(r: Result<T, Error>)
    ensures
        r matches Ok(t) ==> viewed(r) == Ok::<T::V, Error>(t@),
        r matches Err(e) ==> viewed(r) == Err::<T::V, Error>(e),
{
}

/// The text of a value is what the value writes in UTF-8.
proof fn lemma_text(v: Value, key: &'static str)
    ensures
        match text_or_error(v, key) {
            Ok(t) => v == Value::Bytes(encode_utf8(t)),
            Err(e) => {
                ||| !(v is Bytes) && e == (Error::WrongType { key, expected: "a byte string" })
                ||| v is Bytes && !valid_utf8(v->Bytes_0) && e == (Error::NotUtf8 { key })
            },
        },
        text_or_error(v, key) is Ok <==> (v matches Value::Bytes(b) && valid_utf8(b)),
{
    if let Value::Bytes(b) = v {
        if valid_utf8(b) {
            vstd::utf8::decode_utf8_encode_utf8(b);
        }
    }
}

/// A required text field is read as the text that its byte string writes in UTF-8. Where it
/// cannot be, the error says whether the key is absent, its value no byte string, or the byte
/// string not UTF-8.
pub proof fn law_required_text_is_the_field(v: Value, key: &'static str, r: Result<String, Error>)
    requires
        viewed(r) == required_text(v, key),
    ensures
        r matches Ok(t) ==> v.field(key) == Some(Value::Bytes(encode_utf8(t@))),
        v.field(key) matches Some(Value::Bytes(b)) ==> (valid_utf8(b) ==> r is Ok),
        v.field(key) is None ==> r == Err::<String, Error>(Error::MissingKey { key }),
        v.field(key) matches Some(w) ==> (!(w is Bytes) ==> r == Err::<String, Error>(
            Error::WrongType { key, expected: "a byte string" },
        )),
        v.field(key) matches Some(Value::Bytes(b)) ==> (!valid_utf8(b) ==> r == Err::<
            String,
            Error,
        >(Error::NotUtf8 { key })),
{
    if let Some(w) = v.field(key) {
        lemma_text(w, key);
    }
}

/// An optional text field is none exactly where the key is absent, and else read as the text
/// that its byte string writes in UTF-8. Where it cannot be, the error says whether the value is
/// no byte string, or the byte string not UTF-8.
pub proof fn law_optional_text_is_the_field(
    v: Value,
    key: &'static str,
    r: Result<Option<String>, Error>,
)
    requires
        match r {
            Ok(text) => optional_text(v, key) == Ok::<Option<Seq<char>>, Error>(text.deep_view()),
            Err(e) => optional_text(v, key) == Err::<Option<Seq<char>>, Error>(e),
        },
    ensures
        r matches Ok(Some(t)) ==> v.field(key) == Some(Value::Bytes(encode_utf8(t@))),
        r == Ok::<Option<String>, Error>(None) <==> v.field(key) is None,
        v.field(key) matches Some(Value::Bytes(b)) ==> (valid_utf8(b) ==> r is Ok),
        v.field(key) matches Some(w) ==> (!(w is Bytes) ==> r == Err::<Option<String>, Error>(
            Error::WrongType { key, expected: "a byte string" },
        )),
        v.field(key) matches Some(Value::Bytes(b)) ==> (!valid_utf8(b) ==> r == Err::<
            Option<String>,
            Error,
        >(Error::NotUtf8 { key })),
{
    if let Some(w) = v.field(key) {
        lemma_text(w, key);
    }
}

/// The texts of a list are those that its items write, one for one.
proof fn lemma_texts_read(items: Seq<Value>, key: &'static str, texts: Seq<Seq<char>>)
    requires
        gathered(text_results(items, key)) == Ok::<Seq<Seq<char>>, Error>(texts),
    ensures
        texts.len() == items.len(),
        forall|j: int|
            0 <= j < texts.len() ==> items[j] == Value::Bytes(encode_utf8(#[trigger] texts[j])),
{
    let results = text_results(items, key);
    assert forall|j: int| 0 <= j < texts.len() implies items[j] == Value::Bytes(
        encode_utf8(#[trigger] texts[j]),
    ) by {
        assert(results[j] is Ok);
        lemma_text(items[j], key);
    }
}

/// A list of texts is accepted.
proof fn lemma_texts_accepted(items: Seq<Value>, key: &'static str)
    requires
        forall|j: int|
            0 <= j < items.len() ==> ((#[trigger] items[j]) is Bytes && valid_utf8(
                items[j]->Bytes_0,
            )),
    ensures
        gathered(text_results(items, key)) is Ok,
{
    let results = text_results(items, key);
    assert forall|j: int| 0 <= j < results.len() implies (#[trigger] results[j]) is Ok by {
        assert(items[j] is Bytes);
        lemma_text(items[j], key);
    }
}

/// The first item that is no text decides the error.
proof fn lemma_texts_error(items: Seq<Value>, key: &'static str, j: int)
    requires
        0 <= j < items.len(),
        forall|k: int|
            0 <= k < j ==> ((#[trigger] items[k]) is Bytes && valid_utf8(items[k]->Bytes_0)),
        !(items[j] is Bytes) || !valid_utf8(items[j]->Bytes_0),
    ensures
        gathered(text_results(items, key)) == Err::<Seq<Seq<char>>, Error>(
            if items[j] is Bytes {
                Error::NotUtf8 { key }
            } else {
                Error::WrongType { key, expected: "a byte string" }
            },
        ),
{
    let results = text_results(items, key);
    assert forall|k: int| 0 <= k < j implies (#[trigger] results[k]) is Ok by {
        assert(items[k] is Bytes);
        lemma_text(items[k], key);
    }
    lemma_text(items[j], key);
    lemma_gathered_error(results, j);
}

/// An accepted file has the length that stands in its entry, and a path of as many components as
/// the entry lists: component `j` is the text of item `j`.
pub proof fn law_file_is_that_of_its_entry(v: Value, file: FileEntry)
    requires
        viewed(Ok::<FileEntry, Error>(file)) == file_of(v),
    ensures
        v.field("length") matches Some(Value::Int(n)) && n == file.length,
        v.field("path") matches Some(Value::List(parts)) && parts.len() == file.path@.len() && (
        forall|j: int|
            0 <= j < file.path@.len() ==> parts[j] == Value::Bytes(
                encode_utf8((#[trigger] file.path@[j])@),
            )),
{
    let parts = v.field("path")->0->List_0;
    lemma_texts_read(parts, "files[].path", file@.path);
    assert forall|j: int| 0 <= j < file.path@.len() implies parts[j] == Value::Bytes(
        encode_utf8((#[trigger] file.path@[j])@),
    ) by {
        assert(file@.path[j] == file.path@[j]@);
    }
}

/// An entry with a non-negative integer under `length` and a list of texts under `path` is
/// accepted.
pub proof fn law_good_file_entry_is_accepted(v: Value, r: Result<FileEntry, Error>)
    requires
        viewed(r) == file_of(v),
        v.field("length") matches Some(Value::Int(n)) && n >= 0,
        v.field("path") matches Some(Value::List(parts)) && (forall|j: int|
            0 <= j < parts.len() ==> ((#[trigger] parts[j]) is Bytes && valid_utf8(
                parts[j]->Bytes_0,
            ))),
    ensures
        r is Ok,
{
    lemma_texts_accepted(v.field("path")->0->List_0, "files[].path");
}

/// What is wrong with an entry of `files` is reported: first of its `length`, then of its `path`,
/// and there of the first component that is no text.
pub proof fn law_bad_file_entry_is_reported(v: Value, r: Result<FileEntry, Error>)
    requires
        viewed(r) == file_of(v),
    ensures
        v.field("length") is None ==> r == Err::<FileEntry, Error>(
            Error::MissingKey { key: "files[].length" },
        ),
        v.field("length") matches Some(w) ==> (!(w is Int) ==> r == Err::<FileEntry, Error>(
            Error::WrongType { key: "files[].length", expected: "an integer" },
        )),
        v.field("length") matches Some(Value::Int(n)) ==> (n < 0 ==> r == Err::<FileEntry, Error>(
            Error::WrongType { key: "files[].length", expected: "a non-negative integer" },
        )),
        v.field("length") matches Some(Value::Int(n)) ==> (n >= 0 && v.field("path") is None ==> r
            == Err::<FileEntry, Error>(Error::MissingKey { key: "files[].path" })),
        v.field("length") matches Some(Value::Int(n)) ==> (v.field("path") matches Some(w) ==> (n
            >= 0 && !(w is List) ==> r == Err::<FileEntry, Error>(
            Error::WrongType { key: "files[].path", expected: "a list" },
        ))),
        v.field("length") matches Some(Value::Int(n)) ==> (v.field("path") matches Some(
            Value::List(parts),
        ) ==> (n >= 0 ==> forall|j: int|
            0 <= j < parts.len() && (forall|k: int|
                0 <= k < j ==> ((#[trigger] parts[k]) is Bytes && valid_utf8(parts[k]->Bytes_0)))
                ==> (!((#[trigger] parts[j]) is Bytes) ==> r == Err::<FileEntry, Error>(
                Error::WrongType { key: "files[].path", expected: "a byte string" },
            )) && (parts[j] is Bytes && !valid_utf8(parts[j]->Bytes_0) ==> r == Err::<
                FileEntry,
                Error,
            >(Error::NotUtf8 { key: "files[].path" })))),
{
    if let Some(Value::List(parts)) = v.field("path") {
        assert forall|j: int|
            0 <= j < parts.len() && (forall|k: int|
                0 <= k < j ==> ((#[trigger] parts[k]) is Bytes && valid_utf8(
                    parts[k]->Bytes_0,
                ))) && (!(parts[j] is Bytes) || !valid_utf8(parts[j]->Bytes_0)) implies path_of(v)
            == Err::<Seq<Seq<char>>, Error>(
            if (#[trigger] parts[j]) is Bytes {
                Error::NotUtf8 { key: "files[].path" }
            } else {
                Error::WrongType { key: "files[].path", expected: "a byte string" }
            },
        ) by {
            lemma_texts_error(parts, "files[].path", j);
        }
    }
}

/// The files read are those of the list, one for one and in order: file `i` has the length that
/// stands in item `i`, and its path has as many components as item `i` lists, each the text of
/// its byte string.
pub proof fn law_files_are_those_of_the_list(v: Value, files: Seq<FileEntry>, i: int, j: int)
    requires
        files_of(v) == Ok::<Seq<FileModel>, Error>(files_model(files)),
    ensures
        v matches Value::List(items) && items.len() == files.len() && (0 <= i < files.len() ==> {
            &&& items[i].field("length") matches Some(Value::Int(n)) && n == files[i].length
            &&& items[i].field("path") matches Some(Value::List(parts)) && parts.len()
                == files[i].path@.len() && (0 <= j < parts.len() ==> parts[j] == Value::Bytes(
                encode_utf8(files[i].path@[j]@),
            ))
        }),
{
    let items = v->List_0;
    let results = file_results(items);
    assert(files_model(files).len() == results.len());
    if 0 <= i < files.len() {
        assert(results[i] is Ok);
        assert(files_model(files)[i] == files[i]@);
        law_file_is_that_of_its_entry(items[i], files[i]);
    }
}

/// Where every entry of the list is good, the list is accepted.
pub proof fn law_good_file_list_is_accepted(items: Seq<Value>, r: Result<Vec<FileEntry>, Error>)
    requires
        match r {
            Ok(files) => files_of(Value::List(items)) == Ok::<Seq<FileModel>, Error>(
                files_model(files@),
            ),
            Err(e) => files_of(Value::List(items)) == Err::<Seq<FileModel>, Error>(e),
        },
        forall|i: int| 0 <= i < items.len() ==> file_of(#[trigger] items[i]) is Ok,
    ensures
        r is Ok,
{
    let results = file_results(items);
    assert forall|i: int| 0 <= i < results.len() implies (#[trigger] results[i]) is Ok by {
        assert(file_of(items[i]) is Ok);
    }
}

/// Where the value of `files` is no list, that is the error; else what is wrong with the first
/// bad entry is, whatever stands behind it.
pub proof fn law_first_bad_file_entry_is_reported(
    v: Value,
    i: int,
    e: Error,
    r: Result<Vec<FileEntry>, Error>,
)
    requires
        match r {
            Ok(files) => files_of(v) == Ok::<Seq<FileModel>, Error>(files_model(files@)),
            Err(e) => files_of(v) == Err::<Seq<FileModel>, Error>(e),
        },
    ensures
        !(v is List) ==> r == Err::<Vec<FileEntry>, Error>(
            Error::WrongType { key: "files", expected: "a list" },
        ),
        v matches Value::List(items) ==> (0 <= i < items.len() && (forall|k: int|
            0 <= k < i ==> file_of(#[trigger] items[k]) is Ok) && file_of(items[i]) == Err::<
            FileModel,
            Error,
        >(e) ==> r == Err::<Vec<FileEntry>, Error>(e)),
{
    if let Value::List(items) = v {
        let results = file_results(items);
        if 0 <= i < items.len() && (forall|k: int|
            0 <= k < i ==> file_of(#[trigger] items[k]) is Ok) && file_of(items[i]) is Err {
            assert forall|k: int| 0 <= k < i implies (#[trigger] results[k]) is Ok by {
                assert(file_of(items[k]) is Ok);
            }
            lemma_gathered_error(results, i);
        }
    }
}

/// The pieces are all of the byte string in runs of 20: byte `j` of piece `i` is byte
/// `20 * i + j` of the byte string.
pub proof fn law_pieces_are_runs_of_20_bytes(bytes: Seq<u8>, pieces: Seq<[u8; 20]>)
    requires
        bytes.len() % 20 == 0,
        pieces_model(pieces) == cut_pieces(bytes),
    ensures
        20 * pieces.len() == bytes.len(),
        forall|i: int, j: int|
            0 <= i < pieces.len() && 0 <= j < 20 ==> #[trigger] pieces[i]@[j] == bytes[20 * i + j],
{
    assert(pieces_model(pieces).len() == pieces.len());
    assert forall|i: int, j: int|
        0 <= i < pieces.len() && 0 <= j < 20 implies #[trigger] pieces[i]@[j] == bytes[20 * i
        + j] by {
        assert(pieces_model(pieces)[i] == cut_pieces(bytes)[i]);
    }
}

/// An accepted info dict says what its fields hold: the name is the text of `name`, the piece
/// length the integer under `piece length`, the pieces the bytes of `pieces` in runs of 20, the
/// flag whether the integer 1 stands under `private`, and the layout either the integer under
/// `length` or the list under `files`, entry by entry, with every path component by component.
pub proof fn law_info_says_what_its_fields_hold(v: Value, info: InfoDict, i: int, j: int)
    requires
        viewed(Ok::<InfoDict, Error>(info)) == info_of(v),
    ensures
        v is Dict,
        v.field("name") == Some(Value::Bytes(encode_utf8(info.name@))),
        v.field("piece length") matches Some(Value::Int(n)) && n >= 0 && n == info.piece_length,
        v.field("pieces") matches Some(Value::Bytes(bytes)) && bytes.len() == 20
            * info.pieces@.len() && (0 <= i < info.pieces@.len() && 0 <= j < 20
            ==> info.pieces@[i]@[j] == bytes[20 * i + j]),
        info.private <==> v.field("private") == Some(Value::Int(1)),
        match info.layout {
            Layout::SingleFile { length } => {
                &&& v.field("files") is None
                &&& v.field("length") matches Some(Value::Int(n)) && n == length
            },
            Layout::MultiFile { files } => {
                &&& v.field("length") is None
                &&& v.field("files") matches Some(Value::List(items)) && items.len()
                    == files@.len() && (0 <= i < files@.len() ==> {
                    &&& items[i].field("length") matches Some(Value::Int(n)) && n
                        == files@[i].length
                    &&& items[i].field("path") matches Some(Value::List(parts)) && parts.len()
                        == files@[i].path@.len() && (0 <= j < parts.len() ==> parts[j]
                        == Value::Bytes(encode_utf8(files@[i].path@[j]@)))
                })
            },
        },
{
    lemma_text(v.field("name")->0, "name");
    law_pieces_are_runs_of_20_bytes(v.field("pieces")->0->Bytes_0, info.pieces@);
    if let Layout::MultiFile { files } = info.layout {
        law_files_are_those_of_the_list(v.field("files")->0, files@, i, j);
    }
}

/// An info dict is accepted where `name` is UTF-8, `piece length` a non-negative integer,
/// `pieces` a byte string whose length is a multiple of 20, and the layout is either a
/// non-negative integer under `length` or a list under `files` of entries that each have a
/// non-negative integer under `length` and a list of texts under `path`.
pub proof fn law_good_info_dict_is_accepted(v: Value, r: Result<InfoDict, Error>)
    requires
        viewed(r) == info_of(v),
        v is Dict,
        v.field("name") matches Some(Value::Bytes(b)) && valid_utf8(b),
        v.field("piece length") matches Some(Value::Int(n)) && n >= 0,
        v.field("pieces") matches Some(Value::Bytes(b)) && b.len() % 20 == 0,
        ({
            ||| v.field("files") is None && (v.field("length") matches Some(Value::Int(n)) && n
                >= 0)
            ||| v.field("length") is None && (v.field("files") matches Some(Value::List(items)) && (
            forall|i: int|
                0 <= i < items.len() ==> {
                    &&& (#[trigger] items[i]).field("length") matches Some(Value::Int(n)) && n >= 0
                    &&& items[i].field("path") matches Some(Value::List(parts)) && (forall|j: int|
                        0 <= j < parts.len() ==> ((#[trigger] parts[j]) is Bytes && valid_utf8(
                            parts[j]->Bytes_0,
                        )))
                }))
        }),
    ensures
        r is Ok,
{
    lemma_text(v.field("name")->0, "name");
    if v.field("files") is Some {
        let items = v.field("files")->0->List_0;
        let results = file_results(items);
        assert forall|i: int| 0 <= i < results.len() implies (#[trigger] results[i]) is Ok by {
            lemma_texts_accepted(items[i].field("path")->0->List_0, "files[].path");
        }
    }
}

/// What is no dictionary is no info dict; of a dictionary, what is wrong with `name` is reported
/// before anything else.
pub proof fn law_bad_name_is_reported(v: Value, r: Result<InfoDict, Error>)
    requires
        viewed(r) == info_of(v),
    ensures
        !(v is Dict) ==> r == Err::<InfoDict, Error>(Error::NotADict { what: "info" }),
        v is Dict && v.field("name") is None ==> r == Err::<InfoDict, Error>(
            Error::MissingKey { key: "name" },
        ),
        v.field("name") matches Some(w) ==> (!(w is Bytes) ==> r == Err::<InfoDict, Error>(
            Error::WrongType { key: "name", expected: "a byte string" },
        )),
        v.field("name") matches Some(Value::Bytes(b)) ==> (!valid_utf8(b) ==> r == Err::<
            InfoDict,
            Error,
        >(Error::NotUtf8 { key: "name" })),
{
    if let Some(w) = v.field("name") {
        lemma_text(w, "name");
    }
}

/// Behind a good name, what is wrong with `piece length` is reported.
pub proof fn law_bad_piece_length_is_reported(v: Value, r: Result<InfoDict, Error>)
    requires
        viewed(r) == info_of(v),
        v.field("name") matches Some(Value::Bytes(b)) && valid_utf8(b),
    ensures
        v.field("piece length") is None ==> r == Err::<InfoDict, Error>(
            Error::MissingKey { key: "piece length" },
        ),
        v.field("piece length") matches Some(w) ==> (!(w is Int) ==> r == Err::<InfoDict, Error>(
            Error::WrongType { key: "piece length", expected: "an integer" },
        )),
        v.field("piece length") matches Some(Value::Int(n)) ==> (n < 0 ==> r == Err::<
            InfoDict,
            Error,
        >(Error::WrongType { key: "piece length", expected: "a non-negative integer" })),
{
    lemma_text(v.field("name")->0, "name");
}

/// Behind a good name and piece length, what is wrong with `pieces` is reported: `BadPieces`
/// where its length is no multiple of 20.
pub proof fn law_bad_pieces_are_reported(v: Value, r: Result<InfoDict, Error>)
    requires
        viewed(r) == info_of(v),
        v.field("name") matches Some(Value::Bytes(b)) && valid_utf8(b),
        v.field("piece length") matches Some(Value::Int(n)) && n >= 0,
    ensures
        v.field("pieces") is None ==> r == Err::<InfoDict, Error>(
            Error::MissingKey { key: "pieces" },
        ),
        v.field("pieces") matches Some(w) ==> (!(w is Bytes) ==> r == Err::<InfoDict, Error>(
            Error::WrongType { key: "pieces", expected: "a byte string" },
        )),
        v.field("pieces") matches Some(Value::Bytes(b)) ==> (b.len() % 20 != 0 ==> r == Err::<
            InfoDict,
            Error,
        >(Error::BadPieces)),
{
    lemma_text(v.field("name")->0, "name");
}

/// Behind good other fields, what is wrong with the layout is reported: `BadLayout` where
/// `length` and `files` are both there or both absent, else what is wrong with the one that is
/// there.
pub proof fn law_bad_layout_is_reported(v: Value, e: Error, r: Result<InfoDict, Error>)
    requires
        viewed(r) == info_of(v),
        v.field("name") matches Some(Value::Bytes(b)) && valid_utf8(b),
        v.field("piece length") matches Some(Value::Int(n)) && n >= 0,
        v.field("pieces") matches Some(Value::Bytes(b)) && b.len() % 20 == 0,
    ensures
        (v.field("length") is Some) == (v.field("files") is Some) ==> r == Err::<InfoDict, Error>(
            Error::BadLayout,
        ),
        v.field("length") matches Some(w) ==> (v.field("files") is None && !(w is Int) ==> r
            == Err::<InfoDict, Error>(
            Error::WrongType { key: "length", expected: "an integer" },
        )),
        v.field("length") matches Some(Value::Int(n)) ==> (v.field("files") is None && n < 0 ==> r
            == Err::<InfoDict, Error>(
            Error::WrongType { key: "length", expected: "a non-negative integer" },
        )),
        v.field("files") matches Some(w) ==> (v.field("length") is None && !(w is List) ==> r
            == Err::<InfoDict, Error>(Error::WrongType { key: "files", expected: "a list" })),
        v.field("files") matches Some(w) ==> (v.field("length") is None && files_of(w) == Err::<
            Seq<FileModel>,
            Error,
        >(e) ==> r == Err::<InfoDict, Error>(e)),
{
    lemma_text(v.field("name")->0, "name");
}

/// The lengths of files added up from the first to the last.
proof fn lemma_sum_is_fold(files: Seq<FileEntry>, f: spec_fn(int, FileEntry) -> int)
    requires
        forall|acc: int, file: FileEntry| #[trigger] f(acc, file) == acc + file.length,
    ensures
        sum_lengths(files_model(files)) == files.fold_left(0int, f),
    decreases files.len(),
{
    if files.len() > 0 {
        lemma_sum_is_fold(files.drop_last(), f);
        assert(files_model(files).drop_last() =~= files_model(files.drop_last()));
        assert(files_model(files).last() == files.last()@);
    }
}

/// The total length is the length of the single file, or the sum of the lengths of all files;
/// the number of pieces is that of the piece hashes.
pub proof fn law_total_length_adds_up_the_files(info: InfoDict)
    ensures
        info@.pieces.len() == info.pieces@.len(),
        match info.layout {
            Layout::SingleFile { length } => info@.layout.total_length() == length,
            Layout::MultiFile { files } => info@.layout.total_length() == files@.fold_left(
                0int,
                |acc: int, file: FileEntry| acc + file.length,
            ),
        },
{
    if let Layout::MultiFile { files } = info.layout {
        lemma_sum_is_fold(files@, |acc: int, file: FileEntry| acc + file.length);
    }
}

/// The tiers read are the items of `announce-list`, one for one and in order: tier `i` has as many
/// URLs as item `i`, and URL `j` is the text of its byte string. Where `announce-list` is absent
/// or no list there are none.
pub proof fn law_tiers_are_those_of_the_list(root: Value, tiers: Seq<Vec<String>>, i: int, j: int)
    requires
        announce_list_of(root) == Ok::<Seq<Seq<Seq<char>>>, Error>(tiers_model(tiers)),
    ensures
        match root.field("announce-list") {
            Some(Value::List(items)) => tiers.len() == items.len() && (0 <= i < items.len() ==> (
            items[i] matches Value::List(urls) && urls.len() == tiers[i]@.len() && (0 <= j
                < urls.len() ==> urls[j] == Value::Bytes(encode_utf8(tiers[i]@[j]@))))),
            _ => tiers.len() == 0,
        },
{
    assert(tiers_model(tiers).len() == tiers.len());
    if let Some(Value::List(items)) = root.field("announce-list") {
        let results = tier_results(items);
        if 0 <= i < items.len() {
            assert(results[i] is Ok);
            assert(tiers_model(tiers)[i] == texts_model(tiers[i]@));
            lemma_texts_read(items[i]->List_0, "announce-list", texts_model(tiers[i]@));
            if 0 <= j < tiers[i]@.len() {
                assert(texts_model(tiers[i]@)[j] == tiers[i]@[j]@);
            }
        }
    }
}

/// Tiers that are all lists of texts are accepted, and so is a torrent without a list of tiers.
pub proof fn law_good_tiers_are_accepted(root: Value, r: Result<Vec<Vec<String>>, Error>)
    requires
        match r {
            Ok(tiers) => announce_list_of(root) == Ok::<Seq<Seq<Seq<char>>>, Error>(
                tiers_model(tiers@),
            ),
            Err(e) => announce_list_of(root) == Err::<Seq<Seq<Seq<char>>>, Error>(e),
        },
        root.field("announce-list") matches Some(Value::List(items)) ==> forall|i: int|
            0 <= i < items.len() ==> ((#[trigger] items[i]) is List && (forall|j: int|
                0 <= j < items[i]->List_0.len() ==> ((#[trigger] items[i]->List_0[j]) is Bytes
                    && valid_utf8(items[i]->List_0[j]->Bytes_0)))),
    ensures
        r is Ok,
{
    if let Some(Value::List(items)) = root.field("announce-list") {
        let results = tier_results(items);
        assert forall|i: int| 0 <= i < results.len() implies (#[trigger] results[i]) is Ok by {
            assert(items[i] is List);
            lemma_texts_accepted(items[i]->List_0, "announce-list");
        }
    }
}

/// What is wrong with the first bad tier is reported, whatever stands behind it: that it is no
/// list, or what is wrong with its first item that is no text.
pub proof fn law_first_bad_tier_is_reported(
    items: Seq<Value>,
    i: int,
    j: int,
    root: Value,
    r: Result<Vec<Vec<String>>, Error>,
)
    requires
        match r {
            Ok(tiers) => announce_list_of(root) == Ok::<Seq<Seq<Seq<char>>>, Error>(
                tiers_model(tiers@),
            ),
            Err(e) => announce_list_of(root) == Err::<Seq<Seq<Seq<char>>>, Error>(e),
        },
        root.field("announce-list") == Some(Value::List(items)),
        0 <= i < items.len(),
        forall|k: int|
            0 <= k < i ==> ((#[trigger] items[k]) is List && (forall|l: int|
                0 <= l < items[k]->List_0.len() ==> ((#[trigger] items[k]->List_0[l]) is Bytes
                    && valid_utf8(items[k]->List_0[l]->Bytes_0)))),
    ensures
        !(items[i] is List) ==> r == Err::<Vec<Vec<String>>, Error>(
            Error::WrongType { key: "announce-list", expected: "a list of lists" },
        ),
        items[i] matches Value::List(urls) ==> (0 <= j < urls.len() && (forall|k: int|
            0 <= k < j ==> ((#[trigger] urls[k]) is Bytes && valid_utf8(urls[k]->Bytes_0))) ==> (!(
        urls[j] is Bytes) ==> r == Err::<Vec<Vec<String>>, Error>(
            Error::WrongType { key: "announce-list", expected: "a byte string" },
        )) && (urls[j] is Bytes && !valid_utf8(urls[j]->Bytes_0) ==> r == Err::<
            Vec<Vec<String>>,
            Error,
        >(Error::NotUtf8 { key: "announce-list" }))),
{
    let results = tier_results(items);
    assert forall|k: int| 0 <= k < i implies (#[trigger] results[k]) is Ok by {
        assert(items[k] is List);
        lemma_texts_accepted(items[k]->List_0, "announce-list");
    }
    assert(results[i] == tier_of(items[i]));
    if !(items[i] is List) {
        lemma_gathered_error(results, i);
    }
    if let Value::List(urls) = items[i] {
        if 0 <= j < urls.len() && (forall|k: int|
            0 <= k < j ==> ((#[trigger] urls[k]) is Bytes && valid_utf8(urls[k]->Bytes_0))) && (!(
        urls[j] is Bytes) || !valid_utf8(urls[j]->Bytes_0)) {
            lemma_texts_error(urls, "announce-list", j);
            lemma_gathered_error(results, i);
        }
    }
}

/// The fields around the info dict say what stands in the torrent. `announce`, `comment` and
/// `created by` are none exactly where the key is absent, and else the text of its byte string;
/// the creation date is the integer under `creation date`, and none where there is none; the
/// tiers are the items of `announce-list`, URL by URL. The info dict and the info-hash are those
/// that were given.
pub proof fn law_torrent_says_what_its_fields_hold(
    root: Value,
    info: InfoDict,
    info_hash: InfoHash,
    m: Metainfo,
    i: int,
    j: int,
)
    requires
        viewed(Ok::<Metainfo, Error>(m)) == metainfo_with(root, info@, info_hash@),
    ensures
        m.announce matches Some(t) ==> root.field("announce") == Some(
            Value::Bytes(encode_utf8(t@)),
        ),
        m.announce is None <==> root.field("announce") is None,
        m.comment matches Some(t) ==> root.field("comment") == Some(Value::Bytes(encode_utf8(t@))),
        m.comment is None <==> root.field("comment") is None,
        m.created_by matches Some(t) ==> root.field("created by") == Some(
            Value::Bytes(encode_utf8(t@)),
        ),
        m.created_by is None <==> root.field("created by") is None,
        match root.field("creation date") {
            Some(Value::Int(n)) => m.creation_date == Some(n),
            _ => m.creation_date is None,
        },
        match root.field("announce-list") {
            Some(Value::List(items)) => m.announce_list@.len() == items.len() && (0 <= i
                < items.len() ==> (items[i] matches Value::List(urls) && urls.len()
                == m.announce_list@[i]@.len() && (0 <= j < urls.len() ==> urls[j] == Value::Bytes(
                encode_utf8(m.announce_list@[i]@[j]@),
            )))),
            _ => m.announce_list@.len() == 0,
        },
        m.info@ == info@,
        m.info_hash.0@ == info_hash.0@,
{
    law_tiers_are_those_of_the_list(root, m.announce_list@, i, j);
    if let Some(w) = root.field("announce") {
        lemma_text(w, "announce");
    }
    if let Some(w) = root.field("comment") {
        lemma_text(w, "comment");
    }
    if let Some(w) = root.field("created by") {
        lemma_text(w, "created by");
    }
}

/// Fields around the info dict that are each absent or good are accepted; whatever stands under
/// `creation date` is.
pub proof fn law_good_fields_around_info_are_accepted(
    root: Value,
    info: InfoDict,
    info_hash: InfoHash,
    r: Result<Metainfo, Error>,
)
    requires
        viewed(r) == metainfo_with(root, info@, info_hash@),
        root.field("announce") matches Some(w) ==> w is Bytes && valid_utf8(w->Bytes_0),
        root.field("comment") matches Some(w) ==> w is Bytes && valid_utf8(w->Bytes_0),
        root.field("created by") matches Some(w) ==> w is Bytes && valid_utf8(w->Bytes_0),
        root.field("announce-list") matches Some(Value::List(items)) ==> forall|i: int|
            0 <= i < items.len() ==> ((#[trigger] items[i]) is List && (forall|j: int|
                0 <= j < items[i]->List_0.len() ==> ((#[trigger] items[i]->List_0[j]) is Bytes
                    && valid_utf8(items[i]->List_0[j]->Bytes_0)))),
    ensures
        r is Ok,
{
    if let Some(w) = root.field("announce") {
        lemma_text(w, "announce");
    }
    if let Some(w) = root.field("comment") {
        lemma_text(w, "comment");
    }
    if let Some(w) = root.field("created by") {
        lemma_text(w, "created by");
    }
    if let Some(Value::List(items)) = root.field("announce-list") {
        let results = tier_results(items);
        assert forall|i: int| 0 <= i < results.len() implies (#[trigger] results[i]) is Ok by {
            assert(items[i] is List);
            lemma_texts_accepted(items[i]->List_0, "announce-list");
        }
    }
}

/// What is wrong with `announce` is reported first, behind a good one what is wrong with
/// `announce-list`, then with `comment`, then with `created by`.
pub proof fn law_bad_field_around_info_is_reported(
    root: Value,
    info: InfoDict,
    info_hash: InfoHash,
    e: Error,
    r: Result<Metainfo, Error>,
)
    requires
        viewed(r) == metainfo_with(root, info@, info_hash@),
    ensures
        root.field("announce") matches Some(w) ==> (!(w is Bytes) ==> r == Err::<Metainfo, Error>(
            Error::WrongType { key: "announce", expected: "a byte string" },
        )),
        root.field("announce") matches Some(Value::Bytes(b)) ==> (!valid_utf8(b) ==> r == Err::<
            Metainfo,
            Error,
        >(Error::NotUtf8 { key: "announce" })),
        (root.field("announce") is None || (root.field("announce")->0 is Bytes && valid_utf8(
            root.field("announce")->0->Bytes_0,
        ))) ==> {
            &&& announce_list_of(root) == Err::<Seq<Seq<Seq<char>>>, Error>(e) ==> r == Err::<
                Metainfo,
                Error,
            >(e)
            &&& announce_list_of(root) is Ok ==> {
                &&& root.field("comment") matches Some(w) ==> (!(w is Bytes) ==> r == Err::<
                    Metainfo,
                    Error,
                >(Error::WrongType { key: "comment", expected: "a byte string" }))
                &&& root.field("comment") matches Some(Value::Bytes(b)) ==> (!valid_utf8(b) ==> r
                    == Err::<Metainfo, Error>(Error::NotUtf8 { key: "comment" }))
                &&& (root.field("comment") is None || (root.field("comment")->0 is Bytes
                    && valid_utf8(root.field("comment")->0->Bytes_0))) ==> {
                    &&& root.field("created by") matches Some(w) ==> (!(w is Bytes) ==> r == Err::<
                        Metainfo,
                        Error,
                    >(Error::WrongType { key: "created by", expected: "a byte string" }))
                    &&& root.field("created by") matches Some(Value::Bytes(b)) ==> (!valid_utf8(b)
                        ==> r == Err::<Metainfo, Error>(Error::NotUtf8 { key: "created by" }))
                }
            }
        },
{
    if let Some(w) = root.field("announce") {
        lemma_text(w, "announce");
    }
    if let Some(w) = root.field("comment") {
        lemma_text(w, "comment");
    }
    if let Some(w) = root.field("created by") {
        lemma_text(w, "created by");
    }
}

/// Nothing stands around a bare info dict, and it keeps its info and its info-hash.
pub proof fn law_bare_info_has_nothing_around_it(info: InfoDict, info_hash: InfoHash, m: Metainfo)
    requires
        m@ == bare_metainfo(info@, info_hash@),
    ensures
        m.announce is None,
        m.announce_list@.len() == 0,
        m.creation_date is None,
        m.comment is None,
        m.created_by is None,
        m.info@ == info@,
        m.info_hash.0@ == info_hash.0@,
{
    assert(tiers_model(m.announce_list@).len() == m.announce_list@.len());
}

/// An accepted file writes a dictionary. Where it has the key `info`, the info dict is read from
/// the value there, the info-hash is the SHA-1 of the encoding of that value, and the other
/// fields say what stands around it. Else the whole is a bare info dict, hashed as it is, with
/// nothing around it.
pub proof fn law_parsed_torrent_says_what_the_file_holds(
    input: Seq<u8>,
    m: Metainfo,
    i: int,
    j: int,
)
    requires
        viewed(Ok::<Metainfo, Error>(m)) == torrent_of(input),
    ensures
        decoded(input) matches Some(root) && root is Dict && match root.field("info") {
            Some(value) => {
                &&& viewed(Ok::<InfoDict, Error>(m.info)) == info_of(value)
                &&& m.info_hash.0@ == sha1_digest(encoding(value))
                &&& m.announce matches Some(t) ==> root.field("announce") == Some(
                    Value::Bytes(encode_utf8(t@)),
                )
                &&& m.announce is None <==> root.field("announce") is None
                &&& m.comment matches Some(t) ==> root.field("comment") == Some(
                    Value::Bytes(encode_utf8(t@)),
                )
                &&& m.comment is None <==> root.field("comment") is None
                &&& m.created_by matches Some(t) ==> root.field("created by") == Some(
                    Value::Bytes(encode_utf8(t@)),
                )
                &&& m.created_by is None <==> root.field("created by") is None
                &&& match root.field("creation date") {
                    Some(Value::Int(n)) => m.creation_date == Some(n),
                    _ => m.creation_date is None,
                }
                &&& match root.field("announce-list") {
                    Some(Value::List(items)) => m.announce_list@.len() == items.len() && (0 <= i
                        < items.len() ==> (items[i] matches Value::List(urls) && urls.len()
                        == m.announce_list@[i]@.len() && (0 <= j < urls.len() ==> urls[j]
                        == Value::Bytes(encode_utf8(m.announce_list@[i]@[j]@))))),
                    _ => m.announce_list@.len() == 0,
                }
            },
            None => {
                &&& viewed(Ok::<InfoDict, Error>(m.info)) == info_of(root)
                &&& m.info_hash.0@ == sha1_digest(input)
                &&& m.announce is None
                &&& m.announce_list@.len() == 0
                &&& m.creation_date is None
                &&& m.comment is None
                &&& m.created_by is None
            },
        },
{
    law_encoding_of_decoded(input);
    let root = decoded(input)->0;
    match root.field("info") {
        Some(_) => {
            law_torrent_says_what_its_fields_hold(root, m.info, m.info_hash, m, i, j);
        },
        None => {
            law_bare_info_has_nothing_around_it(m.info, m.info_hash, m);
        },
    }
}

/// A file is refused for the first thing that is wrong with it: that it is not canonical bencode,
/// no dictionary, what is wrong with its info dict, and then what is wrong with the fields around
/// that. A dictionary without `info` that is no good info dict itself lacks that key. Where
/// nothing is wrong the file is accepted.
pub proof fn law_file_is_refused_for_what_is_wrong_with_it(
    input: Seq<u8>,
    e: Error,
    r: Result<Metainfo, Error>,
)
    requires
        viewed(r) == torrent_of(input),
    ensures
        decoded(input) is None ==> r == Err::<Metainfo, Error>(Error::Bencode(bencode::Error)),
        decoded(input) matches Some(root) ==> (!(root is Dict) ==> r == Err::<Metainfo, Error>(
            Error::NotADict { what: "torrent" },
        )),
        decoded(input) matches Some(root) ==> (root.field("info") matches Some(value) ==> {
            &&& info_of(value) == Err::<InfoModel, Error>(e) ==> r == Err::<Metainfo, Error>(e)
            &&& info_of(value) matches Ok(info) ==> ({
                let around = metainfo_with(root, info, sha1_digest(encoding(value)));
                &&& around is Ok ==> r is Ok
                &&& around == Err::<MetainfoModel, Error>(e) ==> r == Err::<Metainfo, Error>(e)
            })
        }),
        decoded(input) matches Some(root) ==> (root is Dict && root.field("info") is None ==> {
            &&& info_of(root) is Ok ==> r is Ok
            &&& info_of(root) is Err ==> r == Err::<Metainfo, Error>(
                Error::MissingKey { key: "info" },
            )
        }),
{
}

} // verus!
