//! A whole `.torrent` file, or a bare info dict.

use crate::bencode;
use crate::bencode::grammar::{
    bytes_text, canonical, decoded, encoding, law_decode_of_encoding, law_encoding_injective,
    law_encoding_of_decoded, law_field_stands_in_encoding, law_lookup_finds_only_entries,
    lemma_canonical_values, stands_between, Value,
};
use crate::bencode::value::{items_model, Bencode};
use crate::error::Error;
use crate::fields::{
    all_texts, gathered, get_int, get_list, int_field, lemma_gathered_error, list_field, opt_str,
    optional_text, text_results, texts_model, viewed,
};
use crate::hash::{sha1_digest, sha1_of, InfoHash};
use crate::info::{info_of, parse_info, InfoDict, InfoModel};
use vstd::prelude::*;

verus! {

/// A parsed `.torrent`, or a bare info dict with nothing around it.
#[derive(Debug, Clone, PartialEq, Eq)]
pub struct Metainfo {
    /// Primary tracker announce URL (`announce`), if present.
    pub announce: Option<String>,
    /// Tiered tracker list (`announce-list`, BEP-12).
    pub announce_list: Vec<Vec<String>>,
    /// The info dict.
    pub info: InfoDict,
    /// `creation date` (unix seconds), if present.
    pub creation_date: Option<i64>,
    /// `comment`, if present.
    pub comment: Option<String>,
    /// `created by`, if present.
    pub created_by: Option<String>,
    /// The v1 info-hash (SHA-1 of the bencoded info dict).
    pub info_hash: InfoHash,
}

/// The model of a [`Metainfo`].
pub struct MetainfoModel {
    pub announce: Option<Seq<char>>,
    pub announce_list: Seq<Seq<Seq<char>>>,
    pub info: InfoModel,
    pub creation_date: Option<i64>,
    pub comment: Option<Seq<char>>,
    pub created_by: Option<Seq<char>>,
    pub info_hash: Seq<u8>,
}

/// The characters of each URL of each tier.
pub open spec fn tiers_model(tiers: Seq<Vec<String>>) -> Seq<Seq<Seq<char>>> {
    Seq::new(tiers.len(), |i: int| texts_model(tiers[i]@))
}

impl View for Metainfo {
    type V = MetainfoModel;

    open spec fn view(&self) -> MetainfoModel {
        MetainfoModel {
            announce: self.announce.deep_view(),
            announce_list: tiers_model(self.announce_list@),
            info: self.info@,
            creation_date: self.creation_date,
            comment: self.comment.deep_view(),
            created_by: self.created_by.deep_view(),
            info_hash: self.info_hash@,
        }
    }
}

/// The URLs of one tier of trackers.
pub open spec fn tier_of(v: Value) -> Result<Seq<Seq<char>>, Error> {
    match v.as_list() {
        None => Err(Error::WrongType { key: "announce-list", expected: "a list of lists" }),
        Some(items) => gathered(text_results(items, "announce-list")),
    }
}

/// What each item of `announce-list` says.
pub open spec fn tier_results(items: Seq<Value>) -> Seq<Result<Seq<Seq<char>>, Error>> {
    Seq::new(items.len(), |i: int| tier_of(items[i]))
}

/// The tiers of trackers of a torrent; none where `announce-list` is absent or no list.
pub open spec fn announce_list_of(root: Value) -> Result<Seq<Seq<Seq<char>>>, Error> {
    match list_field(root, "announce-list") {
        None => Ok(seq![]),
        Some(items) => gathered(tier_results(items)),
    }
}

/// What a torrent says, given its info dict and info-hash. Of several things wrong with it, the
/// first in this order is reported: `announce`, `announce-list`, `comment`, `created by`.
pub open spec fn metainfo_with(root: Value, info: InfoModel, info_hash: Seq<u8>) -> Result<
    MetainfoModel,
    Error,
> {
    match (
        optional_text(root, "announce"),
        announce_list_of(root),
        optional_text(root, "comment"),
        optional_text(root, "created by"),
    ) {
        (Err(e), _, _, _) => Err(e),
        (_, Err(e), _, _) => Err(e),
        (_, _, Err(e), _) => Err(e),
        (_, _, _, Err(e)) => Err(e),
        (Ok(announce), Ok(announce_list), Ok(comment), Ok(created_by)) => Ok(
            MetainfoModel {
                announce,
                announce_list,
                info,
                creation_date: int_field(root, "creation date"),
                comment,
                created_by,
                info_hash,
            },
        ),
    }
}

/// What a bare info dict says: nothing stands around it.
pub open spec fn bare_metainfo(info: InfoModel, info_hash: Seq<u8>) -> MetainfoModel {
    MetainfoModel {
        announce: None,
        announce_list: seq![],
        info,
        creation_date: None,
        comment: None,
        created_by: None,
        info_hash,
    }
}

/// What a torrent says: its info dict, hashed as it is written, and the fields around it. A dict
/// without `info` that is itself a good info dict is a bare one.
pub open spec fn metainfo_of(root: Value) -> Result<MetainfoModel, Error> {
    if !(root is Dict) {
        Err(Error::NotADict { what: "torrent" })
    } else {
        match root.field("info") {
            Some(value) => match info_of(value) {
                Err(e) => Err(e),
                Ok(info) => metainfo_with(root, info, sha1_digest(encoding(value))),
            },
            None => match info_of(root) {
                Err(_) => Err(Error::MissingKey { key: "info" }),
                Ok(info) => Ok(bare_metainfo(info, sha1_digest(encoding(root)))),
            },
        }
    }
}

/// What the bytes of a `.torrent` file, or of a bare info dict, say.
pub open spec fn torrent_of(input: Seq<u8>) -> Result<MetainfoModel, Error> {
    match decoded(input) {
        None => Err(Error::Bencode(bencode::Error)),
        Some(root) => metainfo_of(root),
    }
}

/// Reads one tier of trackers.
fn parse_tier(tier: &Bencode) -> (r: Result<Vec<String>, Error>)
    ensures
        match r {
            Ok(urls) => tier_of(tier@) == Ok::<Seq<Seq<char>>, Error>(texts_model(urls@)),
            Err(e) => tier_of(tier@) == Err::<Seq<Seq<char>>, Error>(e),
        },
{
    match tier.as_list() {
        None => Err(Error::WrongType { key: "announce-list", expected: "a list of lists" }),
        Some(items) => all_texts(items, "announce-list"),
    }
}

/// Reads the tiers of trackers of a torrent.
///
/// # Errors
/// What is wrong with the first bad tier: [`Error::WrongType`] where it is no list or holds what
/// is no byte string, [`Error::NotUtf8`] where it holds what is not valid UTF-8.
pub fn parse_announce_list(root: &Bencode) -> (r: Result<Vec<Vec<String>>, Error>)
    ensures
        match r {
            Ok(tiers) => announce_list_of(root@) == Ok::<Seq<Seq<Seq<char>>>, Error>(
                tiers_model(tiers@),
            ),
            Err(e) => announce_list_of(root@) == Err::<Seq<Seq<Seq<char>>>, Error>(e),
        },
{
    let mut tiers: Vec<Vec<String>> = Vec::new();
    let items = match get_list(root, "announce-list") {
        None => {
            assert(tiers_model(tiers@) =~= seq![]);
            return Ok(tiers);
        },
        Some(items) => items,
    };
    let ghost results = tier_results(items_model(items@));
    let mut i: usize = 0;
    while i < items.len()
        invariant
            i <= items@.len(),
            results == tier_results(items_model(items@)),
            announce_list_of(root@) == gathered(results),
            tiers@.len() == i,
            forall|j: int|
                0 <= j < i ==> #[trigger] results[j] == Ok::<Seq<Seq<char>>, Error>(
                    texts_model(tiers@[j]@),
                ),
        decreases items@.len() - i,
    {
        match parse_tier(&items[i]) {
            Err(e) => {
                proof {
                    lemma_gathered_error(results, i as int);
                }
                return Err(e);
            },
            Ok(urls) => {
                tiers.push(urls);
            },
        }
        i += 1;
    }
    assert(gathered(results)->Ok_0 =~= tiers_model(tiers@));
    Ok(tiers)
}

impl Metainfo {
    /// Reads the fields around the info dict of a torrent, and joins them with the info dict and
    /// the info-hash.
    ///
    /// # Errors
    /// [`Error`] where one of these fields is malformed.
    pub fn with_info(root: &Bencode, info: InfoDict, info_hash: InfoHash) -> (r: Result<
        Metainfo,
        Error,
    >)
        ensures
            viewed(r) == metainfo_with(root@, info@, info_hash@),
            r matches Ok(m) ==> m.info == info && m.info_hash == info_hash,
    {
        let announce = match opt_str(root, "announce") {
            Err(e) => {
                return Err(e);
            },
            Ok(announce) => announce,
        };
        let announce_list = match parse_announce_list(root) {
            Err(e) => {
                return Err(e);
            },
            Ok(announce_list) => announce_list,
        };
        let creation_date = get_int(root, "creation date");
        let comment = match opt_str(root, "comment") {
            Err(e) => {
                return Err(e);
            },
            Ok(comment) => comment,
        };
        let created_by = match opt_str(root, "created by") {
            Err(e) => {
                return Err(e);
            },
            Ok(created_by) => created_by,
        };
        Ok(
            Metainfo {
                announce,
                announce_list,
                info,
                creation_date,
                comment,
                created_by,
                info_hash,
            },
        )
    }

    /// A bare info dict with its info-hash, as from a magnet metadata exchange: the fields that
    /// stand around an info dict in a torrent are absent.
    pub fn from_bare_info(info: InfoDict, info_hash: InfoHash) -> (r: Metainfo)
        ensures
            r@ == bare_metainfo(info@, info_hash@),
            r.info == info,
            r.info_hash == info_hash,
    {
        let r = Metainfo {
            announce: None,
            announce_list: Vec::new(),
            info,
            creation_date: None,
            comment: None,
            created_by: None,
            info_hash,
        };
        assert(tiers_model(r.announce_list@) =~= seq![]);
        r
    }

    /// Parse a `.torrent`, or a bare info dict from a magnet metadata exchange, from its raw
    /// bytes.
    ///
    /// # Errors
    /// [`Error`] for any malformed-torrent condition.
    pub fn from_bytes(input: &[u8]) -> (r: Result<Metainfo, Error>)
        requires
            input@.len() < 0x2000_0000_0000_0000,
        ensures
            viewed(r) == torrent_of(input@),
    {
        let root = match bencode::parse(input) {
            Err(e) => {
                return Err(Error::from(e));
            },
            Ok(root) => root,
        };
        if root.as_dict().is_none() {
            return Err(Error::NotADict { what: "torrent" });
        }
        match root.get("info") {
            Some(value) => {
                let info = match parse_info(value) {
                    Err(e) => {
                        return Err(e);
                    },
                    Ok(info) => info,
                };
                proof {
                    law_field_stands_in_encoding(root@, "info");
                }
                // The input is canonical, so that encoding the info dict reproduces the bytes
                // that stand for it in the input.
                let info_hash = InfoHash(sha1_of(value.to_bytes().as_slice()));
                Metainfo::with_info(&root, info, info_hash)
            },
            None => match parse_info(&root) {
                Err(_) => Err(Error::MissingKey { key: "info" }),
                Ok(info) => Ok(Metainfo::from_bare_info(info, InfoHash(sha1_of(input)))),
            },
        }
    }
}

/// Only canonical bencode is accepted: where parsing succeeds, the input is the encoding of a
/// value with sorted and unique keys, and where it is none, that is the error.
pub proof fn law_only_canonical_input_is_accepted(input: Seq<u8>)
    ensures
        torrent_of(input) is Ok ==> exists|root: Value|
            canonical(root) && #[trigger] encoding(root) == input,
        (forall|root: Value| canonical(root) ==> #[trigger] encoding(root) != input)
            ==> torrent_of(input) == Err::<MetainfoModel, Error>(Error::Bencode(bencode::Error)),
{
}

/// Parsing a torrent that was written gives what the written value says.
pub proof fn law_written_torrent_reads_back(root: Value)
    requires
        canonical(root),
    ensures
        torrent_of(encoding(root)) == metainfo_of(root),
{
    law_decode_of_encoding(root);
}

/// The value under a key of a canonical dictionary is canonical.
proof fn lemma_field_canonical(v: Value, key: &str)
    requires
        canonical(v),
        v.field(key) is Some,
    ensures
        canonical(v.field(key)->0),
{
    let entries = v->Dict_0;
    law_lookup_finds_only_entries(entries, vstd::utf8::encode_utf8(key@));
    lemma_canonical_values(entries);
}

/// `info_bytes` is what stands in the file behind the key `info`, `torrent` what the file says:
/// the info dict is read from these bytes, and the info-hash is their SHA-1.
pub open spec fn info_is_read_from(
    input: Seq<u8>,
    before: Seq<u8>,
    info_bytes: Seq<u8>,
    after: Seq<u8>,
    torrent: MetainfoModel,
) -> bool {
    &&& stands_between(
        input,
        before,
        bytes_text(vstd::utf8::encode_utf8("info"@)) + info_bytes,
        after,
    )
    &&& decoded(info_bytes) is Some
    &&& info_of(decoded(info_bytes)->0) == Ok::<InfoModel, Error>(torrent.info)
    &&& torrent.info_hash == sha1_digest(info_bytes)
}

/// The info-hash is the SHA-1 of the info dict exactly as the file has it: of the bytes that
/// stand in the input behind the key `info`, or of the whole input where that is a bare info
/// dict.
pub proof fn law_info_hash_is_sha1_of_the_bytes_in_the_file(input: Seq<u8>)
    requires
        torrent_of(input) is Ok,
    ensures
        decoded(input)->0.field("info") is Some ==> exists|
            before: Seq<u8>,
            info_bytes: Seq<u8>,
            after: Seq<u8>,
        |
            info_is_read_from(input, before, info_bytes, after, torrent_of(input)->Ok_0),
        decoded(input)->0.field("info") is None ==> {
            &&& info_of(decoded(input)->0) == Ok::<InfoModel, Error>(torrent_of(input)->Ok_0.info)
            &&& torrent_of(input)->Ok_0.info_hash == sha1_digest(input)
        },
{
    let root = decoded(input)->0;
    if root.field("info") is Some {
        let value = root.field("info")->0;
        let name = bytes_text(vstd::utf8::encode_utf8("info"@));
        let info_bytes = encoding(value);
        lemma_field_canonical(root, "info");
        law_decode_of_encoding(value);
        law_field_stands_in_encoding(root, "info");
        let (before, after) = choose|before: Seq<u8>, after: Seq<u8>|
            stands_between(encoding(root), before, name + info_bytes, after);
        assert(info_is_read_from(input, before, info_bytes, after, torrent_of(input)->Ok_0));
    }
}

/// A bare info dict is accepted, and its info-hash is the SHA-1 of the whole input. Any other
/// dict without `info` lacks that key.
pub proof fn law_bare_info_dict_is_accepted(input: Seq<u8>)
    requires
        decoded(input) is Some,
        decoded(input)->0 is Dict,
        decoded(input)->0.field("info") is None,
    ensures
        info_of(decoded(input)->0) is Ok ==> torrent_of(input) == Ok::<MetainfoModel, Error>(
            bare_metainfo(info_of(decoded(input)->0)->Ok_0, sha1_digest(input)),
        ),
        info_of(decoded(input)->0) is Err ==> torrent_of(input) == Err::<MetainfoModel, Error>(
            Error::MissingKey { key: "info" },
        ),
{
    law_encoding_of_decoded(input);
}

/// The info dict of a torrent: the value of `info`, or the whole of a bare info dict.
pub open spec fn info_value(root: Value) -> Value {
    match root.field("info") {
        Some(value) => value,
        None => root,
    }
}

/// The info dict identifies the swarm: torrents that share it have the same info-hash whatever
/// stands around it, and the bytes that are hashed are the same only for the same info dict.
pub proof fn law_info_dict_identifies_the_swarm(a: Value, b: Value)
    requires
        metainfo_of(a) is Ok,
        metainfo_of(b) is Ok,
    ensures
        metainfo_of(a)->Ok_0.info_hash == sha1_digest(encoding(info_value(a))),
        info_value(a) == info_value(b) ==> {
            &&& metainfo_of(a)->Ok_0.info == metainfo_of(b)->Ok_0.info
            &&& metainfo_of(a)->Ok_0.info_hash == metainfo_of(b)->Ok_0.info_hash
        },
        encoding(info_value(a)) == encoding(info_value(b)) ==> info_value(a) == info_value(b),
{
    if encoding(info_value(a)) == encoding(info_value(b)) {
        law_encoding_injective(info_value(a), info_value(b));
    }
}

/// The info dict of a torrent, taken out of it, gives the same info and the same info-hash. An
/// info dict with a key `info` of its own is left out: bare, it reads as a torrent.
pub proof fn law_bare_info_dict_has_the_torrents_identity(root: Value)
    requires
        metainfo_of(root) is Ok,
        info_value(root).field("info") is None,
    ensures
        metainfo_of(info_value(root)) is Ok,
        metainfo_of(info_value(root))->Ok_0.info == metainfo_of(root)->Ok_0.info,
        metainfo_of(info_value(root))->Ok_0.info_hash == metainfo_of(root)->Ok_0.info_hash,
{
}

} // verus!
