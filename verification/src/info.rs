//! The info dict: the hashed, swarm-identifying core of a torrent.

use crate::bencode::grammar::Value;
use crate::bencode::value::{items_model, Bencode};
use crate::error::Error;
use crate::fields::{
    all_texts, gathered, get_int, int_field, lemma_gathered_error,
    lemma_gathered_error_is_a_result, req_str, req_unsigned, required_text, required_unsigned,
    text_results, texts_model, to_unsigned, unsigned_or_error, viewed,
};
use vstd::prelude::*;

verus! {

/// One file in a multi-file torrent.
#[derive(Debug, Clone, PartialEq, Eq)]
pub struct FileEntry {
    /// Length in bytes.
    pub length: u64,
    /// Path components, relative to the torrent's `name` directory.
    pub path: Vec<String>,
}

/// The layout of a torrent's content, the two shapes BEP-3 admits.
#[derive(Debug, Clone, PartialEq, Eq)]
pub enum Layout {
    /// A single file of `length` bytes (the info dict carried `length`).
    SingleFile { length: u64 },
    /// A directory of files (the info dict carried `files`).
    MultiFile { files: Vec<FileEntry> },
}

/// The info dict.
#[derive(Debug, Clone, PartialEq, Eq)]
pub struct InfoDict {
    /// Suggested file / directory name.
    pub name: String,
    /// Bytes per piece (a power of two in practice).
    pub piece_length: u64,
    /// Concatenated 20-byte SHA-1 piece hashes, split out.
    pub pieces: Vec<[u8; 20]>,
    /// Single- vs multi-file layout.
    pub layout: Layout,
    /// `private` flag (BEP-27): `1` confines the torrent to its trackers (no DHT/PEX).
    pub private: bool,
}

/// The model of a [`FileEntry`].
pub struct FileModel {
    pub length: u64,
    pub path: Seq<Seq<char>>,
}

/// The model of a [`Layout`].
pub enum LayoutModel {
    SingleFile { length: u64 },
    MultiFile { files: Seq<FileModel> },
}

/// The model of an [`InfoDict`].
pub struct InfoModel {
    pub name: Seq<char>,
    pub piece_length: u64,
    pub pieces: Seq<Seq<u8>>,
    pub layout: LayoutModel,
    pub private: bool,
}

impl View for FileEntry {
    type V = FileModel;

    open spec fn view(&self) -> FileModel {
        FileModel { length: self.length, path: texts_model(self.path@) }
    }
}

/// The models of the files.
pub open spec fn files_model(files: Seq<FileEntry>) -> Seq<FileModel> {
    Seq::new(files.len(), |i: int| files[i]@)
}

impl View for Layout {
    type V = LayoutModel;

    open spec fn view(&self) -> LayoutModel {
        match self {
            Layout::SingleFile { length } => LayoutModel::SingleFile { length: *length },
            Layout::MultiFile { files } => LayoutModel::MultiFile { files: files_model(files@) },
        }
    }
}

/// The bytes of each piece hash.
pub open spec fn pieces_model(pieces: Seq<[u8; 20]>) -> Seq<Seq<u8>> {
    Seq::new(pieces.len(), |i: int| pieces[i]@)
}

impl View for InfoDict {
    type V = InfoModel;

    open spec fn view(&self) -> InfoModel {
        InfoModel {
            name: self.name@,
            piece_length: self.piece_length,
            pieces: pieces_model(self.pieces@),
            layout: self.layout@,
            private: self.private,
        }
    }
}

/// The lengths of the files together.
pub open spec fn sum_lengths(files: Seq<FileModel>) -> nat
    decreases files.len(),
{
    if files.len() == 0 {
        0
    } else {
        sum_lengths(files.drop_last()) + files.last().length as nat
    }
}

impl LayoutModel {
    /// The length of the content in bytes.
    pub open spec fn total_length(self) -> nat {
        match self {
            LayoutModel::SingleFile { length } => length as nat,
            LayoutModel::MultiFile { files } => sum_lengths(files),
        }
    }
}

/// A part of the files is no longer than all of them.
proof fn lemma_sum_lengths_grows(files: Seq<FileModel>, k: int)
    requires
        0 <= k <= files.len(),
    ensures
        sum_lengths(files.take(k)) <= sum_lengths(files),
    decreases files.len(),
{
    if k == files.len() {
        assert(files.take(k) =~= files);
    } else {
        lemma_sum_lengths_grows(files.drop_last(), k);
        assert(files.drop_last().take(k) =~= files.take(k));
    }
}

impl InfoDict {
    /// Total content length in bytes.
    #[must_use]
    pub fn total_length(&self) -> (r: u64)
        requires
            self@.layout.total_length() <= u64::MAX,
        ensures
            r == self@.layout.total_length(),
    {
        match &self.layout {
            Layout::SingleFile { length } => *length,
            Layout::MultiFile { files } => {
                let ghost all = files_model(files@);
                let mut total: u64 = 0;
                let mut i: usize = 0;
                while i < files.len()
                    invariant
                        i <= files@.len(),
                        all == files_model(files@),
                        sum_lengths(all) <= u64::MAX,
                        total == sum_lengths(all.take(i as int)),
                    decreases files@.len() - i,
                {
                    proof {
                        lemma_sum_lengths_grows(all, i + 1);
                        assert(all.take(i + 1).drop_last() =~= all.take(i as int));
                        assert(all.take(i + 1).last() == files@[i as int]@);
                    }
                    total += files[i].length;
                    i += 1;
                }
                assert(all.take(i as int) =~= all);
                total
            },
        }
    }

    /// Number of pieces.
    #[must_use]
    pub fn piece_count(&self) -> (r: usize)
        ensures
            r == self@.pieces.len(),
    {
        self.pieces.len()
    }
}

/// A byte string cut into runs of 20 bytes.
pub open spec fn cut_pieces(bytes: Seq<u8>) -> Seq<Seq<u8>> {
    Seq::new(bytes.len() / 20, |i: int| bytes.subrange(20 * i, 20 * i + 20))
}

/// The path that an entry of `files` gives.
pub open spec fn path_of(v: Value) -> Result<Seq<Seq<char>>, Error> {
    match v.field("path") {
        None => Err(Error::MissingKey { key: "files[].path" }),
        Some(field) => match field.as_list() {
            None => Err(Error::WrongType { key: "files[].path", expected: "a list" }),
            Some(items) => gathered(text_results(items, "files[].path")),
        },
    }
}

/// The file that an entry of `files` describes.
pub open spec fn file_of(v: Value) -> Result<FileModel, Error> {
    match (required_unsigned(v, "length", "files[].length"), path_of(v)) {
        (Err(e), _) => Err(e),
        (_, Err(e)) => Err(e),
        (Ok(length), Ok(path)) => Ok(FileModel { length, path }),
    }
}

/// What each entry of `files` describes.
pub open spec fn file_results(items: Seq<Value>) -> Seq<Result<FileModel, Error>> {
    Seq::new(items.len(), |i: int| file_of(items[i]))
}

/// The files that the value of `files` describes.
pub open spec fn files_of(v: Value) -> Result<Seq<FileModel>, Error> {
    match v.as_list() {
        None => Err(Error::WrongType { key: "files", expected: "a list" }),
        Some(items) => gathered(file_results(items)),
    }
}

/// The layout that an info dict describes, by exactly one of `length` and `files`.
pub open spec fn layout_of(v: Value) -> Result<LayoutModel, Error> {
    match (v.field("length"), v.field("files")) {
        (Some(field), None) => match unsigned_or_error(field, "length") {
            Err(e) => Err(e),
            Ok(length) => Ok(LayoutModel::SingleFile { length }),
        },
        (None, Some(field)) => match files_of(field) {
            Err(e) => Err(e),
            Ok(files) => Ok(LayoutModel::MultiFile { files }),
        },
        _ => Err(Error::BadLayout),
    }
}

/// The bytes per piece that an info dict gives.
pub open spec fn piece_length_of(v: Value) -> Result<u64, Error> {
    required_unsigned(v, "piece length", "piece length")
}

/// The piece hashes that an info dict gives.
pub open spec fn pieces_of(v: Value) -> Result<Seq<Seq<u8>>, Error> {
    match v.field("pieces") {
        None => Err(Error::MissingKey { key: "pieces" }),
        Some(field) => match field.as_bytes() {
            None => Err(Error::WrongType { key: "pieces", expected: "a byte string" }),
            Some(bytes) => if bytes.len() % 20 == 0 {
                Ok(cut_pieces(bytes))
            } else {
                Err(Error::BadPieces)
            },
        },
    }
}

/// What an info dict says. Of several things wrong with it, the first in this order is
/// reported: the value itself, `name`, `piece length`, `pieces`, the layout.
pub open spec fn info_of(v: Value) -> Result<InfoModel, Error> {
    if !(v is Dict) {
        Err(Error::NotADict { what: "info" })
    } else {
        match (required_text(v, "name"), piece_length_of(v), pieces_of(v), layout_of(v)) {
            (Err(e), _, _, _) => Err(e),
            (_, Err(e), _, _) => Err(e),
            (_, _, Err(e), _) => Err(e),
            (_, _, _, Err(e)) => Err(e),
            (Ok(name), Ok(piece_length), Ok(pieces), Ok(layout)) => Ok(
                InfoModel {
                    name,
                    piece_length,
                    pieces,
                    layout,
                    private: int_field(v, "private") == Some(1i64),
                },
            ),
        }
    }
}

/// The 20 bytes of `bytes` from `start` on.
fn piece_at(bytes: &[u8], start: usize) -> (piece: [u8; 20])
    requires
        start + 20 <= bytes@.len(),
    ensures
        piece@ == bytes@.subrange(start as int, start + 20),
{
    assert(bytes@.len() == bytes.len());
    let mut piece: [u8; 20] = [0u8; 20];
    let mut j: usize = 0;
    while j < 20
        invariant
            j <= 20,
            start + 20 <= bytes@.len() == bytes.len(),
            forall|k: int| 0 <= k < j ==> piece@[k] == bytes@[start + k],
        decreases 20 - j,
    {
        piece[j] = bytes[start + j];
        j += 1;
    }
    assert(piece@ =~= bytes@.subrange(start as int, start + 20));
    piece
}

/// Cuts `bytes` into pieces of 20 bytes.
pub fn split_pieces(bytes: &[u8]) -> (pieces: Vec<[u8; 20]>)
    requires
        bytes@.len() % 20 == 0,
    ensures
        pieces_model(pieces@) == cut_pieces(bytes@),
{
    let count: usize = bytes.len() / 20;
    let mut pieces: Vec<[u8; 20]> = Vec::new();
    let mut i: usize = 0;
    while i < count
        invariant
            i <= count,
            count == bytes.len() / 20,
            bytes@.len() == bytes.len(),
            pieces@.len() == i,
            forall|k: int|
                0 <= k < i ==> (#[trigger] pieces@[k])@ == bytes@.subrange(20 * k, 20 * k + 20),
        decreases count - i,
    {
        pieces.push(piece_at(bytes, 20 * i));
        i += 1;
    }
    assert(pieces_model(pieces@) =~= cut_pieces(bytes@));
    pieces
}

/// Reads one entry of `files`.
fn parse_file(entry: &Bencode) -> (r: Result<FileEntry, Error>)
    ensures
        viewed(r) == file_of(entry@),
{
    let length: u64 = match req_unsigned(entry, "length", "files[].length") {
        Err(e) => {
            return Err(e);
        },
        Ok(length) => length,
    };
    let path_value = match entry.get("path") {
        None => {
            return Err(Error::MissingKey { key: "files[].path" });
        },
        Some(field) => field,
    };
    match path_value.as_list() {
        None => Err(Error::WrongType { key: "files[].path", expected: "a list" }),
        Some(items) => match all_texts(items, "files[].path") {
            Err(e) => Err(e),
            Ok(path) => Ok(FileEntry { length, path }),
        },
    }
}

/// Reads the value of `files`.
///
/// # Errors
/// [`Error::WrongType`] where the value is no list, else what is wrong with the first bad entry.
pub fn parse_files(value: &Bencode) -> (r: Result<Vec<FileEntry>, Error>)
    ensures
        match r {
            Ok(files) => files_of(value@) == Ok::<Seq<FileModel>, Error>(files_model(files@)),
            Err(e) => files_of(value@) == Err::<Seq<FileModel>, Error>(e),
        },
{
    let items = match value.as_list() {
        None => {
            return Err(Error::WrongType { key: "files", expected: "a list" });
        },
        Some(items) => items,
    };
    let ghost results = file_results(items_model(items@));
    let mut files: Vec<FileEntry> = Vec::new();
    let mut i: usize = 0;
    while i < items.len()
        invariant
            i <= items@.len(),
            results == file_results(items_model(items@)),
            files_of(value@) == gathered(results),
            files@.len() == i,
            forall|j: int|
                0 <= j < i ==> #[trigger] results[j] == Ok::<FileModel, Error>(files@[j]@),
        decreases items@.len() - i,
    {
        match parse_file(&items[i]) {
            Err(e) => {
                proof {
                    lemma_gathered_error(results, i as int);
                }
                return Err(e);
            },
            Ok(file) => {
                files.push(file);
            },
        }
        i += 1;
    }
    assert(gathered(results)->Ok_0 =~= files_model(files@));
    Ok(files)
}

/// Reads an info dict.
///
/// # Errors
/// [`Error`] for any malformed-info condition.
pub fn parse_info(value: &Bencode) -> (r: Result<InfoDict, Error>)
    ensures
        viewed(r) == info_of(value@),
{
    if value.as_dict().is_none() {
        return Err(Error::NotADict { what: "info" });
    }
    let name = match req_str(value, "name") {
        Err(e) => {
            return Err(e);
        },
        Ok(name) => name,
    };
    let piece_length: u64 = match req_unsigned(value, "piece length", "piece length") {
        Err(e) => {
            return Err(e);
        },
        Ok(piece_length) => piece_length,
    };
    let pieces_value = match value.get("pieces") {
        None => {
            return Err(Error::MissingKey { key: "pieces" });
        },
        Some(field) => field,
    };
    let pieces_bytes = match pieces_value.as_bytes() {
        None => {
            return Err(Error::WrongType { key: "pieces", expected: "a byte string" });
        },
        Some(bytes) => bytes,
    };
    if pieces_bytes.len() % 20 != 0 {
        return Err(Error::BadPieces);
    }
    let pieces = split_pieces(pieces_bytes);
    let private: bool = match get_int(value, "private") {
        Some(n) => n == 1,
        None => false,
    };
    let layout = match (value.get("length"), value.get("files")) {
        (Some(field), None) => match to_unsigned(field, "length") {
            Err(e) => {
                return Err(e);
            },
            Ok(length) => Layout::SingleFile { length },
        },
        (None, Some(field)) => match parse_files(field) {
            Err(e) => {
                return Err(e);
            },
            Ok(files) => Layout::MultiFile { files },
        },
        _ => {
            return Err(Error::BadLayout);
        },
    };
    Ok(InfoDict { name, piece_length, pieces, layout, private })
}

/// What is wrong with the value of `files` is never the choice of layout keys.
proof fn lemma_files_errors(v: Value)
    ensures
        files_of(v) != Err::<Seq<FileModel>, Error>(Error::BadLayout),
{
    if files_of(v) is Err && v.as_list() is Some {
        let results = file_results(v.as_list()->0);
        lemma_gathered_error_is_a_result(results);
        let i = choose|i: int|
            0 <= i < results.len() && #[trigger] results[i] == Err::<FileModel, Error>(
                gathered(results)->Err_0,
            );
        let entry = v.as_list()->0[i];
        assert(results[i] == file_of(entry));
        if path_of(entry) is Err && entry.field("path") is Some && entry.field(
            "path",
        )->0.as_list() is Some {
            let texts = text_results(entry.field("path")->0.as_list()->0, "files[].path");
            lemma_gathered_error_is_a_result(texts);
        }
    }
}

/// An accepted info dict has exactly one of `length` and `files`: the first makes a single file,
/// the second a directory of files. `BadLayout` is what one with both or with neither gets, and
/// no other.
pub proof fn law_exactly_one_of_length_and_files(v: Value)
    ensures
        info_of(v) is Ok ==> {
            &&& (v.field("length") is Some) != (v.field("files") is Some)
            &&& info_of(v)->Ok_0.layout is SingleFile <==> v.field("length") is Some
            &&& info_of(v)->Ok_0.layout is MultiFile <==> v.field("files") is Some
        },
        layout_of(v) == Err::<LayoutModel, Error>(Error::BadLayout) <==> (v.field(
            "length",
        ) is Some) == (v.field("files") is Some),
{
    if v.field("files") is Some {
        lemma_files_errors(v.field("files")->0);
    }
}

/// A key is reported as missing exactly where it is absent.
pub proof fn law_missing_key_means_absent(v: Value)
    ensures
        required_text(v, "name") == Err::<Seq<char>, Error>(Error::MissingKey { key: "name" })
            <==> v.field("name") is None,
        piece_length_of(v) == Err::<u64, Error>(Error::MissingKey { key: "piece length" })
            <==> v.field("piece length") is None,
        pieces_of(v) == Err::<Seq<Seq<u8>>, Error>(Error::MissingKey { key: "pieces" })
            <==> v.field("pieces") is None,
        required_unsigned(v, "length", "files[].length") == Err::<u64, Error>(
            Error::MissingKey { key: "files[].length" },
        ) <==> v.field("length") is None,
        path_of(v) == Err::<Seq<Seq<char>>, Error>(Error::MissingKey { key: "files[].path" })
            <==> v.field("path") is None,
{
    if v.field("path") is Some && v.field("path")->0.as_list() is Some && path_of(v) is Err {
        lemma_gathered_error_is_a_result(
            text_results(v.field("path")->0.as_list()->0, "files[].path"),
        );
    }
}

/// `r` says that the value under the key `label` has the wrong type.
pub open spec fn says_wrong_type<T>(r: Result<T, Error>, label: &'static str) -> bool {
    r matches Err(Error::WrongType { key, .. }) && key == label
}

/// A key whose value has the wrong bencode type is reported as such.
pub proof fn law_wrong_bencode_type_is_reported(v: Value)
    ensures
        v.field("name") is Some && !(v.field("name")->0 is Bytes) ==> says_wrong_type(
            required_text(v, "name"),
            "name",
        ),
        v.field("piece length") is Some && !(v.field("piece length")->0 is Int)
            ==> says_wrong_type(piece_length_of(v), "piece length"),
        v.field("pieces") is Some && !(v.field("pieces")->0 is Bytes) ==> says_wrong_type(
            pieces_of(v),
            "pieces",
        ),
        v.field("files") is None && v.field("length") is Some && !(v.field("length")->0 is Int)
            ==> says_wrong_type(layout_of(v), "length"),
        v.field("length") is None && v.field("files") is Some && !(v.field("files")->0 is List)
            ==> says_wrong_type(layout_of(v), "files"),
        v.field("length") is Some && !(v.field("length")->0 is Int) ==> says_wrong_type(
            file_of(v),
            "files[].length",
        ),
        v.field("path") is Some && !(v.field("path")->0 is List) ==> says_wrong_type(
            path_of(v),
            "files[].path",
        ),
{
}

/// The pieces one after the other.
pub open spec fn joined(pieces: Seq<Seq<u8>>) -> Seq<u8>
    decreases pieces.len(),
{
    if pieces.len() == 0 {
        seq![]
    } else {
        pieces[0] + joined(pieces.drop_first())
    }
}

proof fn lemma_joined_cut(bytes: Seq<u8>)
    requires
        bytes.len() % 20 == 0,
    ensures
        joined(cut_pieces(bytes)) == bytes,
    decreases bytes.len(),
{
    let pieces = cut_pieces(bytes);
    if bytes.len() == 0 {
        assert(joined(pieces) =~= bytes);
    } else {
        let rest = bytes.skip(20);
        lemma_joined_cut(rest);
        assert(pieces.drop_first() =~= cut_pieces(rest)) by {
            assert forall|i: int| 0 <= i < rest.len() / 20 implies #[trigger] pieces.drop_first()[i]
                == cut_pieces(rest)[i] by {
                assert(pieces[i + 1] =~= rest.subrange(20 * i, 20 * i + 20));
            }
        }
        assert(pieces[0] + rest =~= bytes);
    }
}

/// The piece hashes of an accepted info dict have 20 bytes each, and one after the other they
/// are the byte string `pieces`: no byte of it is lost.
pub proof fn law_pieces_are_all_of_the_byte_string(v: Value)
    requires
        info_of(v) is Ok,
    ensures
        v.field("pieces") == Some(Value::Bytes(joined(info_of(v)->Ok_0.pieces))),
        forall|i: int|
            0 <= i < info_of(v)->Ok_0.pieces.len() ==> (
            #[trigger] info_of(v)->Ok_0.pieces[i]).len() == 20,
{
    lemma_joined_cut(v.field("pieces")->0.as_bytes()->0);
}

/// Only the integer 1 under `private` confines a torrent to its trackers.
pub proof fn law_private_only_by_the_integer_one(v: Value)
    requires
        info_of(v) is Ok,
    ensures
        info_of(v)->Ok_0.private <==> v.field("private") == Some(Value::Int(1)),
{
}

} // verus!
