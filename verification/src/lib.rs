//! Typed BitTorrent metainfo: a `.torrent` file (or a bare info dict from a magnet metadata
//! exchange) parsed into a typed [`Metainfo`], with the v1 info-hash (BEP-3) computed from the
//! bencoded info dict.
//!
//! The wire format is [`bencode`]. Only canonical bencode is accepted (sorted, unique dict
//! keys), so the info dict encodes again to the exact bytes that stand in the file, and the
//! SHA-1 of those bytes is the info-hash.

pub mod bencode;
pub mod error;
pub mod fields;
pub mod hash;
pub mod info;
pub mod laws;
mod text;
pub mod torrent;

pub use error::Error;
pub use hash::InfoHash;
pub use info::{FileEntry, InfoDict, Layout};
pub use torrent::Metainfo;
